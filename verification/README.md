# ciqadamq

A clustered MQTT broker with its own user directory, access rules, credential
caches and an offline message queue. The decisions are a Verus library, in which
every function is proved against its contract; the application around it reads,
listens, waits and sends.

| Module | What it decides |
|---|---|
| `topic` | which topics a filter accepts |
| `acl` | what a user may subscribe to and publish |
| `auth` | who is let in, step by step |
| `cache` | how long users and good credentials are remembered |
| `db` | passwords, verifiers, and what each operation does to the users |
| `api` | the management API: tokens, answers, replication, catching up |
| `msgstore` | the queue for offline clients: limits, expiry, delivery, the disk |
| `fanout` | the subscriptions that clients get without asking |
| `cluster`, `config`, `startup`, `vault` | what a node starts with |
| `perf` | the settings and plans of the load tests |
| `text`, `sort` | what the others are written over |

Functions named `law_...` state what holds of the library as a whole. What is
believed of outside crates stands in functions marked `external_body`, each with
a comment that says what it claims.

`app/` is the broker; started as `perf` or `perf-resources` it runs a load test.
