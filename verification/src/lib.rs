//! Spreadsheet-style addressing for tabular data: the grammar behind `A:C`, `[first]:[last]`,
//! `C5`, `3:$`, and `D,B,B`.
//!
//! An address is a comma-separated list. Order is preserved and duplicates are kept, because
//! whether repetition is meaningful depends on the verb using it.
//!
//! | Form                | Means                                                    |
//! |---------------------|----------------------------------------------------------|
//! | `C`, `AF`           | a whole column, by letter (case-insensitive)             |
//! | `[first name]`      | a whole column, by header name (exact; `]]` is a literal `]`) |
//! | `5`                 | a whole row, numbered from 1 as written                  |
//! | `$`                 | the last row                                             |
//! | `C5`, `[price]12`   | one cell                                                 |
//! | `A:C`, `[a]:[b]`    | an inclusive range, either direction                     |
//! | `A:`, `:C`          | open-ended — runs to the table's edge                    |
//! | `B,D:F,B`           | a list, in the order written                             |
//!
//! [`parse`] needs no table. It reports a [`Kind::Syntax`] error with a byte span, so an
//! editor can underline the offending character while the user is still typing. Resolution
//! comes later, against anything implementing [`Grid`], and reports [`Kind::Lookup`] for an
//! address that is well-formed but names nothing here.
//!
//! Addressing past the end of a table has two defensible answers and this crate holds neither
//! as a house style — [`Bounds`] makes the caller say. [`Bounds::Clamp`] stops at the edge, the
//! way `sed` reads `2,$`. [`Bounds::Strict`] refuses.
//!
//! Every function here is verified against a statement of what it returns: the grammar is in
//! [`grammar`], resolution in [`placement`], and the laws tying them together in [`laws`].

pub mod error;
pub mod grammar;
pub mod laws;
pub mod letters;
pub mod parse;
pub mod parse_laws;
pub mod prefix_laws;
pub mod case_laws;
pub mod list_laws;
pub mod range_laws;
pub mod shape_laws;
pub mod placement;
pub mod resolve;
pub mod text;

pub use error::{Error, Kind, Result};
pub use letters::{cell_ref, col_to_letter, letter_to_col, quote_name, rect_ref, MAX_COL};
pub use parse::{parse, parse_prefix, ColRef, Item, Pos, Spec};
pub use placement::{Bounds, Rect};
pub use resolve::{Grid, GridAnswers};
