# rproxy

An HTTP/1.1 reverse proxy whose decisions are verified with Verus.

The library under `src/` holds everything that is decided or computed: reading the configuration,
routing, filtering, canonical targets, framing, access lists, tokens, rate limits, the response
cache, load balancing, health, failover, and the course of a request from its head to the end of
its response. It works on plain values. Each function states in its contract what it returns, and
public proof functions named `law_..` state what holds of the library as a whole.

The program under `app/` performs the input and output around it: sockets, TLS, processes, shared
memory, files and clocks. It asks the library what to do next and reports what happened.

| Module | Holds |
| --- | --- |
| `text`, `net`, `pattern` | texts, addresses and patterns |
| `config`, `config_laws`, `environment` | the configuration file |
| `path`, `header_util`, `http` | targets and heads |
| `fast_proxy`, `request` | routing, and what becomes of a request |
| `jwt`, `rate`, `cache` | tokens, rate limits, the response cache |
| `balancer`, `shared`, `health` | backends and their state |
| `upstream`, `pipe`, `exchange` | the way to a backend and back |
| `buf_pool`, `cycles`, `platform`, `startup`, `recycle` | the processes and the machine |

Functions marked `external_body` call an outside crate or a part of the standard library. Their doc
comments name it and say what is taken from it without proof.
