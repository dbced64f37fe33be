# skillbasin

The core of SkillBasin, verified with Verus: versioned skill pools
("basins"), per-machine version pins and the sync planner that turns them
into install / update / remove / conflict steps, the agent adapter registry,
secret resolution, the skills.sh answer cache, search-request building,
content hashing and the fleet status report.

- `src/` is the library. Every function there carries a contract that Verus
  checks; the `law_*` proof functions state what holds across calls (a
  converged machine plans nothing and neither does one whose plan was
  carried out, the planner never touches an unmanaged directory, a chosen
  machine id stays, Tier1 adapters always win, what a cache lookup gives
  back after a store and any traffic since, ...).
- Paths follow the rules of the platform the program runs on; the `_in`
  variants take those rules (`PathStyle::Unix` or `PathStyle::Windows`) as
  an argument and have exact contracts for each.
- `tests/` runs the library on concrete values.
- `app/` is the `skillbasin-agent` command line: file, git and network I/O
  around the library.
