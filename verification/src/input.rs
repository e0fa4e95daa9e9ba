//! The single-line prompt of `rat input`: its state and where the caret
//! sits on the terminal.

use vstd::prelude::*;

use crate::measure::{str_width, unicode_str_width};
use crate::text::{chars_of, push_char, slice_of, string_of};

verus! {

/// The edited line: its value, the caret as a character index, whether it
/// is masked, and the most characters it may hold.
pub struct InputState {
    pub value: String,
    pub cursor: usize,
    pub password: bool,
    pub char_limit: usize,
}

/// The text a state shows: the placeholder while empty, a `*` per
/// character when masked, else the value.
pub open spec fn shown(value: Seq<char>, password: bool, placeholder: Seq<char>) -> Seq<char> {
    if value.len() == 0 {
        placeholder
    } else if password {
        Seq::new(value.len(), |i: int| '*')
    } else {
        value
    }
}

impl InputState {
    /// A state holding `value`, the caret after its last character.
    pub fn new(value: String, password: bool, char_limit: usize) -> (r: InputState)
        ensures
            r.value@ == value@,
            r.cursor == value@.len(),
            r.password == password,
            r.char_limit == char_limit,
    {
        let n = chars_of(value.as_str()).len();
        InputState { value, cursor: n, password, char_limit }
    }

    /// The text the prompt shows after itself.
    pub fn display(&self, placeholder: &str) -> (r: String)
        ensures
            r@ == shown(self.value@, self.password, placeholder@),
    {
        let v = chars_of(self.value.as_str());
        if v.len() == 0 {
            return placeholder.to_string();
        }
        if !self.password {
            return self.value.clone();
        }
        let mut r = String::new();
        let mut i: usize = 0;
        while i < v.len()
            invariant
                i <= v@.len(),
                r@ == Seq::new(i as nat, |k: int| '*'),
            decreases v@.len() - i,
        {
            push_char(&mut r, '*');
            proof {
                assert(r@ =~= Seq::new((i + 1) as nat, |k: int| '*'));
            }
            i += 1;
        }
        r
    }
}

/// The prompt line: a header row above it when one is set.
pub struct InputApp {
    pub state: InputState,
    pub prompt: String,
    pub placeholder: String,
    pub header: Option<String>,
}

/// The text before the caret.
pub open spec fn before_caret(value: Seq<char>, password: bool, placeholder: Seq<char>, cursor: usize) -> Seq<char> {
    let t = shown(value, password, placeholder);
    t.take(if cursor <= t.len() {
        cursor as int
    } else {
        t.len() as int
    })
}

/// The caret's column in cells: the prompt's width, plus the width of the
/// text before the caret once there is a value.
pub open spec fn caret_col(app: InputApp) -> int {
    unicode_str_width(app.prompt@) + if app.state.value@.len() == 0 {
        0
    } else {
        unicode_str_width(before_caret(app.state.value@, app.state.password, app.placeholder@, app.state.cursor))
    }
}

impl InputApp {
    /// Rows the prompt needs.
    pub fn height(&self) -> (r: u16)
        ensures
            r == if self.header is Some {
                2u16
            } else {
                1u16
            },
    {
        if self.header.is_some() {
            2
        } else {
            1
        }
    }

    /// Where the terminal cursor goes, in cells: the renderer consumes the
    /// column as terminal cells and wide glyphs occupy two. An empty value
    /// keeps the caret at the text start, never inside the placeholder.
    pub fn cursor_pos(&self) -> (r: Option<(u16, u16)>)
        requires
            caret_col(*self) <= usize::MAX,
        ensures
            r == Some(((caret_col(*self) as usize) as u16, if self.header is Some {
                1u16
            } else {
                0u16
            })),
    {
        let row: u16 = if self.header.is_some() {
            1
        } else {
            0
        };
        let mut col = str_width(self.prompt.as_str());
        let v = chars_of(self.state.value.as_str());
        if v.len() > 0 {
            let text = self.state.display(self.placeholder.as_str());
            let t = chars_of(text.as_str());
            let k = if self.state.cursor <= t.len() {
                self.state.cursor
            } else {
                t.len()
            };
            let before = string_of(slice_of(&t, 0, k));
            proof {
                assert(t@.subrange(0, k as int) =~= t@.take(k as int));
            }
            col = col + str_width(before.as_str());
        }
        Some((col as u16, row))
    }

    /// `cursor_pos` for any state: `None` only when the widths overflow a
    /// `usize`.
    pub fn cursor_pos_checked(&self) -> (r: Option<(u16, u16)>)
        ensures
            r is Some <==> caret_col(*self) <= usize::MAX,
            r is Some ==> r == Some(((caret_col(*self) as usize) as u16, if self.header is Some {
                1u16
            } else {
                0u16
            })),
    {
        let p = str_width(self.prompt.as_str());
        let v = chars_of(self.state.value.as_str());
        if v.len() > 0 {
            let text = self.state.display(self.placeholder.as_str());
            let t = chars_of(text.as_str());
            let k = if self.state.cursor <= t.len() {
                self.state.cursor
            } else {
                t.len()
            };
            let before = string_of(slice_of(&t, 0, k));
            proof {
                assert(t@.subrange(0, k as int) =~= t@.take(k as int));
            }
            let b = str_width(before.as_str());
            if p > usize::MAX - b {
                return None;
            }
        }
        self.cursor_pos()
    }
}

} // verus!
