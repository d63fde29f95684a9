# prima

The in-memory data layer of an on-demand public transport service: zones, companies,
vehicles with their availability windows, tours with their pickup and drop-off events, and
users. The decisions the service takes on this data are made here, with their contracts proved
by Verus; only what needs floating point (whether a point lies in a zone, distances and travel
times) and the input and output around them stay in `app/`.

## Layout

- `src/` — the verified library.
  - `interval.rs`: time windows and how they overlap, touch, merge, cut and split.
  - `records.rs`: the records kept in memory.
  - `data.rs`: the whole state, its well-formedness, and lookups by id.
  - `availability.rs`: adding and taking away availability windows, with the laws that
    windows stay apart, that adding or taking away a window changes exactly its time, and
    that windows read back come back as they were.
  - `queries.rs`: tours, events and vehicles in a time frame, idle vehicles, conflicts.
  - `changes.rs`: requests that change the data, decided before the database stores them
    and recorded once it has, with the law that every vehicle's windows stay apart.
  - `loading.rs`: filling the data from what the database holds, with the laws that users
    and zones read back in any order, and companies and vehicles each under its id, come back
    as they were.
  - `routing.rs`: the decisions on a ride request.
  - `content.rs`: whether two data sets hold the same content.
  - `clock.rs`: the clock and the calendar (through chrono), and which windows may be booked.
  - `status.rs`, `units.rs`, `traits.rs`: answers, conversions, and the views callers use.
- `tests/` — scenarios run against the compiled library.
- `app/` — the service around the library: the database (sea-orm), HTTP statuses (hyper),
  zone geometry and distances (geo), and the asynchronous interface.
