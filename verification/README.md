# control

The metadata rules of a log-structured message broker: which records a partition holds and who may see
them, how producers and transactions are kept apart, how groups of readers share partitions, and who may
do what. The library is written in Verus; every function states what it does to the store and what it
answers, and is proved to do so.

## Layout

- `src/` is the library.
  - `log_types`, `topics`, `log_append`, `log_objects`, `log_reads`, `log_retention`, `producer_expiry` and
    `compaction*` keep logs: topics, the objects and spans that hold their records, and what is let go.
  - `producers`, `transactions`, `transaction_ends` and `transaction_queries` keep producers and their
    transactions; `offsets`, `group_offsets` and `offset_expiry` keep the offsets of groups.
  - `classic_*`, `groups`, `consumer_*`, `member_epoch`, `assignment_interval`, `share_groups` and
    `group_admin` keep groups; `store` ties them to the logs.
  - `acls`, `acl_store`, `scram`, `client_quotas`, `client_metrics`, `configs`, `features` and
    `delegation_tokens` keep rules and settings.
  - `row_commit`, `row_groups` and `row_rules` decide over the rows of a database.
  - `clocked` offers operations that read the clock and draw ids themselves; everywhere else both come in
    as arguments.
  - `*_laws` state what holds of the store as a whole.
  - `sorted_map`, `text`, `text_parts`, `numbers`, `time`, `partition`, `error`, `patterns` and `fresh` are
    what the rest is built from. `patterns` and `fresh` hold the only calls to other crates.
- `tests/` runs the library.
- `app/` holds the stores around it: one in memory behind a lock, one in a database.

Every type `X` that holds text or collections has a model `XView`, and contracts speak of models: text is
a sequence of characters, a `SortedMap` is a map, an instant is a number of nanoseconds.
