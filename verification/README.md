# protect_it

The rules of a small tower-defence game, each function with a machine-checked contract.

- `src/road.rs`: a level's road and the tiles that pave it (a connected path).
- `src/tilemap.rs`: the cells of the grass layer.
- `src/enemy.rs`: where enemies spawn and how they walk from checkpoint to checkpoint.
- `src/defence.rs`: how cannons pick, keep and lose targets, and the reload timer (bevy's `Timer`).
- `src/health.rs`: damage events and the enemies they remove.
- `app/`: the bevy application: rendering, input, entities, and all floating-point motion.
