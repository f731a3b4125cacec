# inhouse

The logic of a Discord bot that runs ten-player in-house games: lobbies that fill up,
balanced team drawing, result marking and rating write-back, a leaderboard, and the player
records kept by the bot's databases. The library under `src/` is verified with Verus; `app/`
holds the bot itself (Discord commands, the Supabase and file-backed databases, serde, and the
Glicko-2 rating computation, which works on floating-point numbers).

- `src/game.rs`: players, tiers, games; joining, leaving, teams by team bits.
- `src/balance.rs`: drawing teams among the five-player picks closest to half the total score.
- `src/balance_check.rs`: the exact test of what drawing teams asks of the players.
- `src/rating.rs`: the ratings each side is rated against, and writing new ratings back.
- `src/store.rs`: the in-memory player records and game counters.
- `src/lobby.rs`: the lobby buttons and what they do to a game.
- `src/message.rs`: what the lobby message shows, by the game's state.
- `src/board.rs`: the leaderboard text.
- `src/legacy.rs`: records of earlier schemas and their migration.
- `src/text.rs`: decimal text of integers.
- `src/outside.rs`: the calls into `rand`, `itertools` and std, with the contracts taken on trust.
