# boxmanager

Turns mihomo / Clash style proxy nodes into sing-box `outbounds`, manages the
subscriptions of a mihomo config and of a sing-box template, and builds a
sing-box config from a template and cached subscriptions. The library is
written in Verus: every function in `src/` carries a contract that Verus
proves.

Layout:

- `src/input/` reads subscriptions: mihomo YAML `proxies`, one URI per line,
  base64-wrapped lists; `uri.rs` parses `ss://`, `vmess://` and the URL
  schemes.
- `src/convert/` turns one node into one sing-box outbound per protocol
  (`protocols.rs`), with TLS, transport and multiplex options
  (`options.rs`), and renders the outbound list with the optional `Proxy`
  selector and `Auto` urltest (`mod.rs`).
- `src/mihomo.rs` edits the `proxy-providers:` section of a mihomo config as
  text, line by line; an update writes the new `url:` line two deeper than
  the provider's key, in place of the provider's own `url:` lines (those
  nested no deeper than its settings; a nested `health-check` url stays).
  `sync_mihomo_step` is one step of a sync, which the command line folds
  over the lines of the subscription state. `src/mihomo_edits.rs` proves
  what such an edit leaves for a reader of the text:
  - an updated provider is listed with its new name and the string that the
    double-quoted url reads as, the others as before, and a replaced name is
    gone where no other provider had it (for a config with no line ending
    in a carriage return, a url without line breaks, a new name without
    whitespace, and settings not indented just one deeper than the key);
  - a provider added with no other provider to copy settings from is listed
    last, where the provider keys are indented by two spaces (a provider
    added from a template is written from the serialised template, whose
    lines the library takes as given);
  - a removal leaves the other providers as they were, where one remains.
- `src/outbound_providers.rs` and `src/box_subscriptions.rs` keep the
  subscription lists of a sing-box template, with laws that what is
  written, upserted or removed is listed back, and that a second removal
  changes nothing; `src/entries.rs` holds the rules they share.
- `src/template.rs` expands template outbounds (`include`, `filter`,
  `exclude_filter`) and assembles the built config and its summary.
- `src/json.rs`, `src/yaml.rs` and `src/text.rs` model JSON and YAML values
  and text; `src/outside.rs` holds the calls into the outside crates
  (base64, url, urlencoding, serde_yaml, serde_json, regex) with the
  contracts that the proofs rely on.
- `app/main.rs` is the command line: argument parsing, files, and the serde
  conversions between the library's values and serde's.
- `tests/` runs the library on concrete inputs.
