# rogue_swarm

The rules of Rogue Swarm, a browser arcade game in which one player steers a
carrier and its nanobot swarm while every other connected client watches.

- `src/` is the verified library:
  - `lobby`: the connected clients, which of them steers, and whose input counts;
  - `spatial_hash`: the grid of cells that finds a nanobot's neighbours;
  - `contacts`: what a tick's contacts between swarm, aliens, asteroids and
    carrier do to the score and to the entities;
  - `hud`: the status texts a client shows.
- `app/` is the game server (Bevy simulation, Axum web server and WebSockets)
  and the browser client; it does the floating-point physics, the drawing and
  the I/O, and calls the library for the rules.
- `tests/` exercises the library.
