# lazy_boone

The decision logic of the LazyBoone explorer, an agent of a space game that
travels between planets to gather and craft resources, written in Verus.

- `src/` is the verified library:
  - `resources`: resource kinds and their conversions;
  - `score`: the running score and expected scores;
  - `items`: the bag, as the kinds of the resources it holds;
  - `movement`: the map of planets with per-planet distance weights, route
    finding down the weights, and the decisions taken while travelling or
    scouting;
  - `decisionmaking`: crafting plans, their expected value and the choice of
    the best one;
  - `communication`: what the replies of the orchestrator and of planets
    mean for the explorer, and the preparation of crafting requests.
- `app/` holds the channels, the game's explorer interface and the loops that
  run the library's decisions between messages.
- `tests/` exercises the library on concrete values.
