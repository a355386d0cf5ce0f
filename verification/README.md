# commit-fix

A pre-commit hook that fixes Rust code as it is committed without disturbing
concurrent work, as a verified library and a thin program around it.

On every commit, staged Rust sources are reformatted into the commit in flight,
machine-applicable clippy fixes are applied crate-wide, and a commit that
changes a `Cargo.toml` gets its `Cargo.lock` freshened. There are no options.

## How it is built

Nothing in the library touches the world. Each part of the hook is a machine
that takes an answer and makes the next request (`src/action.rs`); requests and
answers are values. The program in `app/` carries the requests out.

| module | what it holds |
| --- | --- |
| `text`, `list` | texts as sequences of characters; lines, fields, ordered sets |
| `manifest` | what is read out of a `Cargo.toml` |
| `path` | slash-separated paths |
| `git`, `command` | what git's answers mean; every program run with its arguments |
| `fmt` | pure formatting changes; the groups that a tree is formatted in |
| `json`, `suggest` | `serde_json` and `rustfix` behind contracts |
| `diagnostic`, `digest` | compiler diagnostics, and what a lint run amounts to |
| `stage` | staging exact bytes, content-addressed |
| `clippy`, `scratch`, `lock` | the lint pass, the scratch checkout, the lock file pass |
| `hook`, `session` | the run itself, and a whole session of all machines |
| `safety` | the two floors, stated over everything that a session asks and is told |

## The two floors

Both are proved in `src/safety.rs`, for whatever the world answers.

- A session never blocks (`a_session_never_blocks`, `a_session_ends`).
- A session never stages foreign bytes: every index entry that it asks for names
  an object made of bytes that follow from the index
  (`every_entry_follows_from_the_index`), and it overwrites no contended file
  (`a_contended_file_is_not_overwritten`).

Nor is anything left out that a commit calls for: no source of the commit
(`no_source_is_left_out`), no file that may ride along
(`no_bystander_is_left_out`), no fix of clippy's (`no_fix_is_left_out`,
`a_fix_is_staged_where_it_fits`), and no pass (`every_pass_is_run`).

## The scratch checkout

A lock file is resolved in a scratch checkout of the pending commit, with the
path dependencies beside the repository as flat siblings (`src/scratch.rs`). Of
a package, the checkout follows the manifest at the root of each tree; of a
workspace it follows every manifest of each tree, so that a member may depend on
a sibling of the repository too, or be one.
