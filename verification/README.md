# rogue_boi

The rules of a classic rogue-like, verified with Verus.

`src/` is the library. Its functions carry contracts that Verus proves, except the small
wrappers marked `#[verifier::external_body]` around `rand`, `smallvec`, `base64` and one std
sort: their contracts restate what those crates document and are trusted, not proved.

- `math`, `grid` – integer vectors and the rectangular world grid.
- `components`, `actions` – the game's data, the player's queued actions and the keyboard
  mapping.
- `map_gen` – dungeon generation: rooms, a spanning tree of tunnels, doors, monsters, items
  and the stairs (`chances`, `populate`, `rect_room`, `tunnel_iter`).
- `pathfinder` – A* search over the world grid.
- `fov` – line of sight, the player's field of view and which cells the screen shows.
- `systems`, `combat`, `ai` – one tick of play: movement, items, equipment, levelling,
  status effects and the monsters' moves and blows.
- `archetypes` – the markers, parts and starting numbers each kind of thing carries.
- `rng` – the draws the game makes from `rand`.
- `save` – save games as base64 text.

`app/` is the browser front end: the entity world (`cecs`), the JavaScript interface
(`wasm-bindgen`), serialization and canvas rendering. `tests/` exercises the library on
concrete values.
