# make_short_url

A URL shortener (actix-web and Redis) whose logic is a Verus-verified library.

- `src/base62.rs`: short codes. `encode` writes an id in base 62 and `decode`
  reads it back. Their contracts are given over `spec_encode` and `spec_decode`,
  and the round-trip, injectivity and ordering laws are proved.
- `src/redis_conn.rs`: the Redis settings and `redis_url`, the `Command` and
  `Reply` types, the steps that prepare the store (`setup_redis`, `Setup`), and
  what to do when a key expires (`redis_psub_expiry`).
- `src/server.rs`: shortening one URL as a verified state machine
  (`process_url`, `Shorten`) and the answer to a short link
  (`short_url_redirect`).
- `app/main.rs`: the server. It runs the requests and Redis commands that the
  library asks for and passes the replies back to it.
