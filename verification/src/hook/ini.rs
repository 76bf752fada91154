//! The line format `pacman.conf` and hook files share.
//!
//! A line is `[section]`, or `key`, or `key = value`. Whitespace round a line, a key and a value
//! does not count. Empty lines and lines that start with `#` say nothing.

use vstd::prelude::*;
use vstd::slice::slice_subrange;

use crate::text;

verus! {

/// What a line says.
#[derive(Clone, Debug, Eq, PartialEq)]
pub enum Line {
    /// `[name]`.
    Section {
        /// The section's name.
        name: String,
    },
    /// `key`, or `key = value`.
    Directive {
        /// The key.
        key: String,
        /// What follows the first `=`, where there is one.
        value: Option<String>,
    },
}

/// What a [`Line`] holds.
pub enum LineView {
    /// [`Line::Section`].
    Section {
        /// The section's name.
        name: Seq<char>,
    },
    /// [`Line::Directive`].
    Directive {
        /// The key.
        key: Seq<char>,
        /// The value.
        value: Option<Seq<char>>,
    },
}

impl View for Line {
    type V = LineView;

    open spec fn view(&self) -> LineView {
        match self {
            Line::Section { name } => LineView::Section { name: name@ },
            Line::Directive { key, value } => LineView::Directive {
                key: key@,
                value: text::maybe(*value),
            },
        }
    }
}

/// What a line says, where it says anything.
pub open spec fn line_of(s: Seq<char>) -> Option<LineView> {
    let line = text::trim(s);
    if line.len() == 0 || line[0] == '#' {
        None
    } else if line[0] == '[' && line.last() == ']' {
        Some(LineView::Section { name: line.subrange(1, line.len() - 1) })
    } else {
        match text::split_once(line, '=') {
            Some((key, value)) => Some(
                LineView::Directive { key: text::trim(key), value: Some(text::trim(value)) },
            ),
            None => Some(LineView::Directive { key: line, value: None }),
        }
    }
}

/// Reads one line.
pub fn parse_line(s: &[char]) -> (r: Option<Line>)
    ensures
        match r {
            Some(line) => line_of(s@) == Some(line@),
            None => line_of(s@) is None,
        },
{
    let line = text::trimmed(s);
    if line.len() == 0 || line[0] == '#' {
        return None;
    }
    if line[0] == '[' && line[line.len() - 1] == ']' {
        let name = slice_subrange(line, 1, line.len() - 1);
        assert(name@ =~= line@.subrange(1, line@.len() - 1));
        return Some(Line::Section { name: text::text(name) });
    }
    match text::cut_once(line, '=') {
        Some((key, value)) => Some(
            Line::Directive {
                key: text::text(text::trimmed(key)),
                value: Some(text::text(text::trimmed(value))),
            },
        ),
        None => Some(Line::Directive { key: text::text(line), value: None }),
    }
}

} // verus!
