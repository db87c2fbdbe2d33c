# kovi_plugin_transfer

Message-forwarding rules for a Kovi (OneBot) QQ bot, with the rule logic
formally verified.

- `src/` — the verified library:
  - `config.rs`: sources, targets, rules and the stored configuration;
  - `cmd.rs`: the `/transfer add|remove|list|enable|disable` command — word
    parsing, rule descriptions, forward labels, and each subcommand's effect;
  - `dispatch.rs`: what to do with an incoming message;
  - `forward.rs`: which rules forward a message (with the anti-loop guards),
    combined-forward ids, and the send API call for a target;
  - `media.rs`: media URLs, GIF detection, the border walk that nudges edge
    pixels by drawn amounts, and PNG/GIF re-encoding through the `image` crate;
  - `num.rs`, `text.rs`: decimal rendering/parsing and Unicode-whitespace
    trimming and splitting.
- `app/` — the plugin itself: Kovi event handling, `transfer.json` storage,
  HTTP downloads, ffmpeg for videos, and the bot API calls.
- `tests/` — executable tests of the library.
