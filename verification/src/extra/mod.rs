pub mod expected_value;
