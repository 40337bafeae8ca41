# service_report

Monthly reports of paid services kept in a Google Calendar: events whose
summary reads `Service: Client` (or `Service - Client`) are grouped by
client, split by day, laid out as Markdown or JSON tables, and priced with
per-client hourly rates kept in a YAML file.

## Layout

- `src/` is the library, verified with Verus. Each public function states
  what it returns in its `ensures`; the laws that tie functions together are
  public proof functions:
  - a rate reads back after it is set, other clients keep theirs, and
    removing a rate just set restores the others (`rates`);
  - when each day of an event begins before the next one, its day segments
    neither lose nor count twice a second of it, on days of 23 or 25 hours
    too (`segments`);
  - in UTC, an all-day event is one 24-hour block per day, and a month begins
    before the next one; in every zone, consecutive months abut
    (`segments`, `month`);
  - an event out of the month or the prefix leaves the report unchanged, and
    over a run of rate lookups each client without a rate is listed once
    (`report`);
  - sorting keeps every row (`order`); summary pieces are trimmed and never
    empty (`summary`).

  Modules:
  - `summary`, `text`: reading service and client out of a summary.
  - `civil`, `zone`, `event`, `month`: dates, instants, time zones (through
    `chrono` and `chrono-tz`), the start and end of events, month bounds.
  - `segments`: splitting an event by the local days of a zone; a day runs
    from its midnight to the next day's midnight, or for 24 hours when the
    next day has no single midnight.
  - `rows`: report rows, one per UTC day on which an event has a part,
    grouped by client.
  - `order`, `report`, `layout`: ordering, and the layout of the reports,
    with the clients that have no rate.
  - `rates`, `rate_page`: the rates file, rate changes and the rates page.
  - `settings`: calendar settings, credentials and the address of a page of
    events.
  - `totals`: the terms of a month's totals, split by the local days of the
    report's zone, and the summaries that name no client.
- `app/` is the program around it: command line, YAML files, OAuth, HTTP
  requests, the HTTP server, logging, and the arithmetic of hours and costs,
  which is floating point.
- `tests/` runs the library on concrete calendars.

Rates are handed to the library as the bit patterns of their `f64` values,
and lengths of service as whole seconds; the program turns them into hours
and costs when it writes a report out.
