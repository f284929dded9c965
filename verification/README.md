# claymore

The rules of a turn-based hex hunt (island map, towns, scenes, and the hex
combat), written in Verus with their contracts proved.

- `src/` — the verified library: hex geometry, the single-precision
  arithmetic the hit rolls use (modelled exactly on integers), the seeded
  generator, combat (movement, targeting, zones, damage, the enemy's choice,
  and carrying out an action), the mode machine and its key/click decisions,
  scenes and barks, the island ledger and victory rules, presentation
  decisions, and the GLB container and accessor reading.
- `app/` — the shell: saving and loading (serde), sound, file reads, the
  JSON parse of glTF documents, and the floating-point presentation math.
- `tests/` — tests of the library on concrete values.

Some turn-flow steps (advancing the turn and deciding the battle's end)
are not part of this crate; `act` reports when they are owed.
