# stax

`stax` manages stacks of Git branches and their GitHub pull requests:
navigating a stack, restacking it after a parent moves, submitting it as
pull requests, repairing branches that sit on the wrong parent, and
"diamonds", where one branch depends on several others through a shadow
branch that merges them.

## Layout

- `src/` is the library, written and proved with Verus. It holds every
  decision the tool makes: the branch cache and its validation, building a
  stack from parent links, the parent search, navigation targets, restack
  and sync plans, repair (gap inference, topological order, topology
  checks), diamond bookkeeping, the drawn stack tree, the stack comment and
  pull-request titles and bases, configuration, and the OAuth device-flow
  decisions. Each public function states its result exactly in its
  contract; laws that relate several functions are public proof functions
  named `law_*`.
- `app/` is the command-line program around the library: argument
  handling, Git and GitHub calls, files, and terminal output. It asks Git
  and GitHub the questions the library needs and hands the answers to it.
- `tests/` runs the library on concrete values.
