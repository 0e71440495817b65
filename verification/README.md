# LUST - LISP in Rust

A library that makes applications scriptable with a simplified LISP, and a small interpreter
program around it.

## Layout

*  `src/` is the verified library. Every function in it carries a contract that Verus proves:
   *  `ast::tokenizer` and `ast::token` - the character-level state machines of the tokeniser, a
      specification of tokenisation over sequences of characters, and `tokenize`, which is proved
      to produce exactly the specified results;
   *  `ast::parser` - `parse`, proved against a specification of the grammar;
   *  `ast` and `ast::display` - positions, AST nodes and their textual forms;
   *  `ast::reading` - the proof that the textual form of a tree reads back as the tree;
   *  `val::cons` - linked lists whose cells are borrowed;
   *  `exp::expression` - expressions: `Expression::parse`, which compiles an AST node in a scope
      of variable names (a command set, through the `Command` trait, decides what a tree with a
      head becomes), `as_map` for binding lists, the traversal `sub_expressions`, and
      `link_lambdas`, which registers lambda definitions in a store and replaces them by
      references;
   *  `lambda`, `exp::env`, `exp` and `exp::cmd` - the lambda store, the evaluation environment,
      the parse context and the evaluation contexts, including the resource constraining one;
   *  `common` and `text` - writing lists, and character-level helpers.
*  `tests/` exercises the library on concrete scripts.
*  `app/` is the interpreter program: values hold floating point numbers, so the evaluator, the
   command macros (which implement the library's `Command` trait), the allocators, the
   serialisable forms and the command line live there, on top of the library.

## Laws

Besides the contracts of the functions, the library proves properties that span them, as public
proof functions named `law_*`: tokenisation stops at its first error; every token is read from
the input at its reported position and has the promised shape; a parse consumes the whole token
stream and never yields a quoted string or number, nor a number without a digit; the textual form of a tree whose atoms and
numbers are written as they are read parses back into the tree, strings included; the reference
that `register` returns resolves to the registered lambda; linking leaves no definition of a
single lambda where a traversal reaches; a scope made by `with_scope` shadows
its parent; and after `prepend`, `car` and `cdr` give back the value and the list.
