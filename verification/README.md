# gpui_mcp

Semantic automation for GPUI applications, written in Verus: a window's
accessibility tree becomes a published tree of named nodes that clients read,
wait for, and act on.

- `src/` is the library. Every function states what it returns or changes, and
  Verus proves it. What holds of the library as a whole stands in public proof
  functions whose names begin with `law_`.
- `tests/` runs the library on concrete values.
- `app/` joins the library to GPUI, locks, channels, and clocks.

## How a frame is published

1. `tree` turns a finalized accessibility tree into places, parents, and a
   depth-first order.
2. `identity` gives every element a name of its own: the element's name while
   that names it alone, else the shortest trailing run of its ancestor path that
   separates it, else the path with the element's number.
3. `content` collects descendant text and decides what ancestors hide.
4. `observer` builds the bridge's nodes and decides which frames are published.
5. `frame` records the nodes, and `ancestry` leaves out those whose parents do
   not lead to a root; each omission is reported once, up to the limit on reports.
6. `registry` compares the frame with the published tree and advances its
   generation where they differ.

Floating-point numbers are held as their bit patterns (`number`): the library
asks whether one is finite and how two compare, and never computes with them.

## What is trusted

- `String::push` of the standard library appends one character.
- `gpui::Keystroke::parse` accepts exactly the texts of GPUI's keystroke syntax,
  which the contracts of `input` refer to as `keystroke_syntax`.
