# swarm_economy

The integer and enumeration logic of an emergent market-economy simulation,
written in Verus and proved against its contracts.

- `src/` — the verified library. Each module states its rules as spec
  functions over `Seq`/`Map`/`Multiset` models and proves the executable code
  against them; the properties that span several calls stand as public
  `lemma_*` proof functions.
  - `types` commodities, seasons, terrain, professions; `world` the season
    clock and the world tick, in four phases (season; order expiry after
    the merchants' orders; gossip, caravans and bandits; bankruptcy,
    rebalancing and metrics) between which the caller does the real-valued
    work; `terrain` the terrain grid and coast
    detection;
  - `caravan` caravan formation, dissolution and escorts; `caravan_inputs`
    the initiator order and the compatibility, dissolution and escort
    matrices built from the caller's judgements; `gossip` what
    agents share, and a whole gossip round; `merchant` price memory,
    ledger, navigation, bankruptcy;
  - `order_book` order placement, expiry and price history; `crafting`
    the recipe registry, recipe availability, job start and timers; `economy` profession accounting,
    rebalancing and income windows;
  - `bandit` camp lifecycle; `attack` the attacks of a tick; `city`
    upgrades and food shortage; `resource_node` exhaustion clock, seasonal
    yield classes and scatter draws; `cluster` density-based cluster
    counting; `tracker` and `report` the metrics window and report
    sampling; `config` integer range checks; `hud` labels; `random` draws
    from the seeded generator.
- `tests/` — unit tests run against the compiled library.
- `app/` — a headless command-line runner: configuration loading (TOML),
  noise terrain, positions on the continuous map, the distance, heading and
  chance judgements handed to the world tick, gold settlement, and the JSON
  report.

Prices, quantities, positions and other real-valued quantities stay outside
the library; where a rule needs one, the library takes it as an opaque
payload or as the boolean outcome of the comparison.
