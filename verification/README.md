# llama_infer

Runs small Llama models on the CPU: it reads a checkpoint and a vocabulary, and continues a prompt.

    llama_infer <model.bin> <tokenizer.bin> [-i prompt] [-n steps] [-t temperature] [-p topp] [-s seed]

`src/` is a library whose functions are proved by Verus to meet their contracts. `app/` is the
program around it: the command line's floating-point numbers, the two files, the clock and the
terminal, and the single-precision arithmetic that the library asks for one operation at a time.
`tests/` runs the library with that arithmetic.

## What is proved

* The checkpoint and the vocabulary are read field by field as their formats say, and a file that
  is too short is an error and nothing else is.
* A forward pass evaluates exactly the formulas of the network: every scalar of every buffer is the
  value of a formula over the scalars before, in the order in which the operations are made. It
  leaves the values of all other positions alone, and their keys too, but for the first scalar of
  the next position's key where a key's length is odd. Where that length is even, the heads split
  evenly and the arithmetic answers each request in one way, its scores depend on the token, the
  position and the keys and values of the positions before it, and on nothing else.
* A token is chosen from the scores as the temperature and the share of the probability say, and
  the choice follows from the scores, the settings and the generator's state, again where the
  arithmetic answers each request in one way.
* Encoding merges the best pair again and again until none is left, keeps what the tokens spell,
  and decoding gives the text back where the vocabulary has its characters and the tokens are
  shown as they are spelled.
* A generation feeds the prompt in order, never runs past the sequence and ends.

No function panics or overflows where its preconditions hold. `can_run`, `can_hold`, `can_encode`
and `fits` test the preconditions that depend on a file.

## What is trusted

Two functions of the standard library: `String::push` and `String::from_utf8_lossy`. Of the second
it is only assumed that its result depends on the bytes alone and is their text where they are valid
UTF-8. Nothing is assumed of the arithmetic unit but that it answers every request.
