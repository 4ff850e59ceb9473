# typedown

Types for markdown. A schema under `.typedown/` says what front matter,
sections, list items and links the documents of a type have; `td` checks
documents against it, fixes what it can and writes them in one form.

## Layout

- **src/**: the library, written in Verus. Every function states in its
  contract what it returns, and every contract is proved.
- **tests/**: the library at work on concrete documents.
- **app/**: the `td` program: the command line, files, git, the language
  server and the YAML form of schemas.

## Modules

- **Text**: `text`, `path`, `uri`, `dates`, `ordered`, `value`, `json_value`
- **Documents**: `ast`, `events`, `parse`, `serialize`, `paragraph`, `html`,
  `yaml_text`, `links`
- **Schemas**: `schema`, `template`, `globs`, `rule`, `resolve`
- **Checking and fixing**: `diagnostic`, `correspondence`, `fix`, `format`
- **Asking**: `json`, `coerce`, `query`, `walk`, `lsp`, `git`

What the library takes from other crates stands behind small functions whose
contracts are trusted. Each says above it which outside function it calls and
what it claims of it.
