# codecrafters_grep

A small grep, verified with Verus. A pattern is made of literals, `\d`, `\w`,
a space, `[...]`, `[^...]`, `+` after a class, and the anchors `^` and `$`;
`src/` parses patterns (`parser.rs`), matches them against a line
(`matcher.rs`: a pattern matches a line when some stretch of the line is
matched by its classes in order, with `+` free to take any number of
repetitions), and states and proves laws of both (`laws.rs`). Every
executable function there carries a contract over the spec functions of those
modules. `app/` is the command line around it:

    echo <input_text> | codecrafters_grep -E <pattern>

exits with 0 when the pattern matches the line and 1 otherwise.
