# fluent_ftl_tools

Tools for Fluent FTL translation files and for moving messages over from
gettext PO files, as a library whose logic is verified with Verus, and a
small command-line program around it.

Library (`src/`):

- `po`: the PO file parser (entries, continued strings, errors by line) and
  the lookup of the message at a given line.
- `po_convert`, `migrate`: turning a printf-style gettext string into a
  Fluent message, collecting its translations by language, and adding the
  new message to each language's FTL file.
- `ftl`, `syntax`: the model of an FTL resource and the bridge to the
  `fluent-syntax` parser and serializer.
- `resource`, `format`, `layout`: the canonical layout (resource comments,
  then terms, then messages, ordered by id), readable parser error reports,
  and the laws of the layout.
- `missing`, `rename`, `consistency`: the `show-missing`, `rename` and
  `check-consistency` tools.
- `cli`, `text`: argument handling and character-level helpers.

Program (`app/`): file-system access, temporary files and the command line;
the first argument names the tool.
