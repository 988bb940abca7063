# message_router

A router for messages between services, and the service side of it.

* `src/` is the library. It decides: which server a request goes to, what goes back to whom, what a
  worker hands on, when a worker is started again. Its contracts are proved with Verus.
* `app/` runs the library on ZeroMQ sockets and threads.
* `tests/` runs the library on given messages.

| module | |
| --- | --- |
| `server` | the router: requests, replies, signs of life |
| `registry` | which server services which shard |
| `envelope`, `frame` | a message under way, and its parts |
| `message`, `routesrv` | the messages, and how they are written |
| `record` | protocol buffer messages as values, one after the other |
| `wire` | protocol buffer messages as numbered fields |
| `application` | a service: its name, its forwarding, its workers |
| `laws` | what holds of the router and the services together |
