# emojoy

The core of a desktop emoji picker, verified with Verus: searching an emoji list by
tags, ranking results by match quality and by how often each emoji was picked, merging
user-defined aliases, and spotting the typed trigger sequence (such as `::`) that opens
the picker.

- `src/emoji.rs` — entries, scoring of tags against query terms, search, alias merging,
  reading the emojilib JSON list.
- `src/ranking.rs` — ordering results by score, ties kept in order.
- `src/usage.rs` — pick counts and the boost they give.
- `src/hotkey.rs` — trigger-sequence detection over typed characters.
- `src/text.rs` — lowercasing, whitespace splitting, prefix and substring tests.
- `src/str_map.rs` — a map keyed by text.
- `app/` — the desktop shell (windows, tray, clipboard, key events, files).
