# proxy_processor

Reads proxy share links (`vless://…`, `ss://…`, or Base64 text holding one), filters them by
type and by country, lists them sorted without repeats, and exports them as links (one per
line) or as a sing-box `outbounds` document.

- `src/` is the library, verified with Verus: link parsing (`parser`, `url_parts`, `decode`),
  the filters and the ordered, duplicate-free result (`processor`, `order`), the exporters and
  their JSON (`exporter`, `json`), and properties that relate them (`laws`).
- `app/` is the command line around it: arguments, downloads and files, DNS and GeoIP lookups,
  parallel parsing, and JSON serialisation of the sing-box document.
- `tests/` runs the library on concrete inputs.
