# farkle

The dice game Farkle. `src/` holds the rules with their contracts, checked by Verus:
`scoring` (combinations and the score of kept dice), `dice` (throws), `game` (players,
rounds, the bots' choice, menu), `display` (the text the screen shows), and
`extra::expected_value` (the mean score of simulated throws). `app/` is the terminal
game around them (`--expected-values` runs the simulation).
