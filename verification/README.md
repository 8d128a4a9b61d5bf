# jason

A JSON library whose behaviour is stated as contracts and proved with Verus:
a lexer and recursive-descent parser, compact and indented writers, JSON
Pointer lookup and update, JSON Patch operations, a structural diff that
produces patch operations, and JSON Merge Patch.

Strings are written with JSON's short escapes and `\u00XX` for the other
control characters.

Numbers are kept as canonical decimals (sign, digits, exponent), so reading
and writing them loses nothing, except that the reader caps the size of an
exponent at 10^18, and zero has no sign (`-0` reads as `0`, equal to it).

## Layout

- `src/` — the library, all of it verified:
  - `lexer.rs`, `parser.rs`: reading text, specified by `lex_all` and `parse_text`;
  - `serializer.rs`, `number.rs`: writing text (`compact`, `pretty`, `render`);
  - `value.rs`, `members.rs`: documents, objects with sorted keys, and facts about their members;
  - `pointer.rs`: JSON Pointer (`resolve`, `put`);
  - `patch.rs`, `patch_text.rs`: patch operations, and patch documents as JSON;
  - `diff.rs`, `merge_patch.rs`: diffs and merge patches;
  - `roundtrip.rs`: written documents read back as themselves;
  - `message.rs`: error messages.
- `tests/` — tests run against the compiled library.
- `app/` — the command-line tool (`format`, `diff`, `patch`, `pointer`, each reading standard input).

## Proved laws

- `law_roundtrip`, `law_pretty_roundtrip`: writing a document (compact or
  indented) and reading the text back gives the document.
- `law_pretty_strips_to_compact`: the indented text without the spaces and
  line breaks outside string literals is the compact text;
  `law_pretty_reindent`: the text at a deeper level is the text with more
  spaces after each line break.
- `law_position_counts`: error positions count the line breaks before them.
- `law_diff_apply`: applying `diff(old, new)` to `old` gives `new`, for all
  well-formed documents (keys are escaped in the paths, `~` as `~0` and `/`
  as `~1`); `law_diff_same`: a document differs from itself in nothing;
  `law_diff_empty_iff_equal`: the diff is empty exactly when the documents
  are equal.
- `law_pointer_root`, `law_read_after_write`, `law_add_then_read`,
  `law_remove_then_read`, `law_copy_then_read`, `law_move_then_read`: what a
  pointer reads after an operation; `law_remove_undoes_add`: removing what an
  addition added gives the document and the value back;
  `law_failed_operation_changes_nothing`: an operation that fails (a move
  whose addition fails included) leaves the document as it was.
- `law_merge_members`, `law_merge_replaces`, `law_merge_into_non_object`: what
  a merge patch (RFC 7396) does to each key; `null` members are dropped at
  every depth.
- `law_parse_wf`, `law_apply_wf`, `law_apply_all_wf`, `law_merge_wf`: documents
  read from text, and documents changed by patch operations or merge
  patches, keep sorted, distinct keys and canonical numbers.
