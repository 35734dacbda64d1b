# helix

The verified core of a parallelizing compiler for a small loop language, written in Verus.

A program is a list of functions over integers, floats and arrays. The library finds the
loops of such a program, tests which of their iterations touch one element, takes the
loops that may run in parallel out of their functions, and lowers everything to machine
functions in which every division and every array access is guarded. Beside the compiler
stands an interpreter; what compiled code prints is compared with what it prints. A
campaign measures both on a registry of kernels.

## What is proved

- *Approved loops.* No two iterations of an approved loop touch one element when one of
  them writes it (`law_approved_iterations_are_independent`). Four things
  are left out. A write whose subscript the analysis cannot read is not held against itself
  where the subscript is made of loop indices, as the rows of a matrix product are; that its
  iterations stay apart is the program's business. Where such a subscript reads an element
  or a call, the loop stays sequential. Iterations whose distance no `i64` holds are not told
  apart. Subscripts are taken not to wrap around: `a[i * 4611686018427387904 * 4]` is
  approved, though every iteration writes element 0. The accumulator of a reduction is
  touched by every iteration, and is combined from one cell for each participant.
  The law speaks of arrays: a scalar that goes from one iteration to the next and is no
  accumulator keeps a loop from being taken out, not from being approved.
- *Extraction.* A loop is taken out only where every iteration is one round from header to
  header, the induction value grows by one, and all that the header does is to compare it
  with the same bound; anything else runs sequentially. One call of the body does what one
  iteration did (`law_one_call_is_one_iteration`), whatever the instructions mean.
- *Captured values.* What the header stashes and the host packs, the body reads back
  (`law_captured_values_are_read_back`, `law_bodies_find_what_was_captured`), where floats
  keep their value when they are widened and narrowed again.
- *Running in parts.* With the operators of the interpreter, running the iterations of a
  region in any order, on any number of participants, leaves memory as the loop leaves it,
  and combines integer accumulators to the accumulator of the loop, bit by bit
  (`law_parts_do_what_the_loop_does_i64`, and `_i32`). Where the loop ends with an error,
  some call of every such run does not come back
  (`law_parts_halt_where_the_loop_halts_i64`, and `_i32`). The laws speak
  of functions in which every value has one definition that does not read
  it, of arrays that have no element in common, of 64-bit subscripts that the analysis
  can read, and of a context that was packed from what the header stashed. Calls are taken
  one after another: that two which run at once do no more than two in turn rests on their
  touching different elements. What becomes of float accumulators is not proved: sums and
  products depend on the order, and so does the least of two numbers that are both NaN with
  different bits.
- *Lowering.* Operators, divisions and conversions give on the machine what the interpreter
  gives (`law_operators_agree` and its neighbours). Loads and stores reach the address of
  the element that the subscript selects, or report the error that the interpreter reports
  (`law_loads_reach_their_element`, `law_stores_reach_their_element`). A whole lowered
  function, with its memory, its calls, its branches and loops, and its errors, does on the
  machine what the function does on addresses
  (`law_lowered_functions_do_what_functions_do`); what it does on addresses it does on
  elements, where no two arrays share a byte (`law_addresses_stand_for_elements`); so
  compiled functions do what functions do (`law_compiled_functions_do_what_functions_do`),
  and one machine call of a body is one iteration (`law_one_machine_call_is_one_iteration`).
  Left out are functions whose entry is the target of an edge, values that their own
  definition reads, the code that hands a region to the host, and runs that read a value
  which was not computed on the way. What calls do is supplied: they are taken to do on
  elements what they do on addresses.

## Layout

- `src/` is the library. Each function has a contract, and Verus proves it. Properties that
  span functions are proof functions whose names start with `law_`. `src/lib.rs` says what
  each module is for.
- `tests/` runs the library. `tests/programs.rs` holds a small front end and an evaluator of
  machine functions, so that whole programs are compiled and executed without a code
  generator.
- `app/` is the command-line program: it reads files, starts threads, hands machine
  functions to Cranelift, writes reports and serves a page. A program's syntax and
  intermediate form come, as JSON, from the front-end executable that the environment
  variable `HELIX_FRONT` names.

## What is trusted

The library trusts four items, all in `src/clock.rs`: the type `std::time::Instant`,
reading the clock with it, the time since a reading, and that time in nanoseconds. Nothing
is claimed of what the clock shows. Floating-point
numbers are bit patterns in the library; the operations on them are closures that the
caller supplies, and contracts speak of what those closures return.
