# gshell

A small POSIX-style shell whose core is verified with Verus.

`src/` is the library: the tokenizer, the parser and its syntax tree, the
evaluator of `&&` / `||` / `!` / `if` / `while` / `for` / `case` as a state
machine, word expansion, glob matching, aliases, history expansion, tab
completion, the prompt theme renderer and the oh-my-posh theme reader (a JSON
parser), and the decisions behind builtins, redirections and pipelines. Every
public function carries a contract over a mathematical model, and the laws of
the library (what an alias lookup gives back after a set, how `&&` skips after
a failure, that completion candidates come out sorted, ...) are public proof
functions.

`app/` is the interactive program around it: the line editor, process
spawning, pipes, file descriptors and the environment. It hands the library
plain values and acts on what comes back.

`tests/` runs the library on concrete inputs.
