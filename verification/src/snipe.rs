//! The box of keys that a popup shows.

use vstd::prelude::*;

verus! {

/// The number of columns that a string takes on a terminal, as the crate
/// unicode-width counts them.
pub uninterp spec fn display_width(s: Seq<char>) -> nat;

/// Calls `UnicodeWidthStr::width` of unicode-width, which folds the
/// characters of the string over the crate's width tables and reads nothing
/// else. Nothing is claimed of the result but that it depends on the
/// characters alone.
#[verifier::external_body]
fn str_width(s: &str) -> (r: usize)
    ensures
        r == display_width(s@),
{
    unicode_width::UnicodeWidthStr::width(s)
}

/// A box of keys and what they stand for, shown under a title.
#[derive(Debug)]
pub struct Snipe {
    /// Title shown at the top.
    pub title: String,
    /// The keys, each with its text.
    pub items: Vec<(String, String)>,
    /// Width of the body in columns.
    pub width: u16,
    /// Height of the body in rows.
    pub height: u16,
}

/// What a sequence of pairs of strings spells.
pub open spec fn pairs(s: Seq<(String, String)>) -> Seq<(Seq<char>, Seq<char>)> {
    Seq::new(s.len(), |i: int| (s[i].0@, s[i].1@))
}

/// The width of the widest key among the first `k` pairs.
pub open spec fn widest_key(s: Seq<(Seq<char>, Seq<char>)>, k: nat) -> nat
    decreases k,
{
    if k == 0 || k > s.len() {
        0
    } else {
        let rest = widest_key(s, (k - 1) as nat);
        let last = display_width(s[k - 1].0);
        if last > rest {
            last
        } else {
            rest
        }
    }
}

/// The width of the widest text among the first `k` pairs.
pub open spec fn widest_text(s: Seq<(Seq<char>, Seq<char>)>, k: nat) -> nat
    decreases k,
{
    if k == 0 || k > s.len() {
        0
    } else {
        let rest = widest_text(s, (k - 1) as nat);
        let last = display_width(s[k - 1].1);
        if last > rest {
            last
        } else {
            rest
        }
    }
}

/// A number of columns as the 16 bits of a terminal coordinate hold it.
pub open spec fn columns(n: nat) -> nat {
    n % 0x10000
}

/// The width of a body: its widest key, its widest text, and four columns
/// for what stands around them.
pub open spec fn body_width(s: Seq<(Seq<char>, Seq<char>)>) -> nat {
    columns(widest_key(s, s.len())) + columns(widest_text(s, s.len())) + 4
}

/// The widths of the widest key and of the widest text.
fn measure(body: &[(String, String)]) -> (r: (usize, usize))
    ensures
        r.0 == widest_key(pairs(body@), body@.len()),
        r.1 == widest_text(pairs(body@), body@.len()),
{
    let mut key_width: usize = 0;
    let mut text_width: usize = 0;
    let mut i: usize = 0;
    while i < body.len()
        invariant
            i <= body.len(),
            key_width == widest_key(pairs(body@), i as nat),
            text_width == widest_text(pairs(body@), i as nat),
        decreases body.len() - i,
    {
        let k = str_width(body[i].0.as_str());
        let t = str_width(body[i].1.as_str());
        if k > key_width {
            key_width = k;
        }
        if t > text_width {
            text_width = t;
        }
        i += 1;
    }
    (key_width, text_width)
}

impl Snipe {
    /// A box for `body` under `title`, where the widest key of the body
    /// takes `key_width` columns and its widest text `text_width`. An empty
    /// body gives a box of one row, as wide as the title is long in bytes;
    /// any other a row for each pair, and the two widths and four columns
    /// more for its width. Numbers are taken as 16 bits hold them.
    pub fn with_widths(
        title: &str,
        body: &[(String, String)],
        key_width: usize,
        text_width: usize,
    ) -> (r: Self)
        requires
            body@.len() > 0 ==> columns(key_width as nat) + columns(text_width as nat) + 4
                <= u16::MAX,
        ensures
            r.title@ == title@,
            pairs(r.items@) == pairs(body@),
            body@.len() == 0 ==> r.height == 1 && r.width == columns(title.len() as nat),
            body@.len() > 0 ==> r.height == columns(body@.len()) && r.width == columns(
                key_width as nat,
            ) + columns(text_width as nat) + 4,
    {
        if body.len() == 0 {
            let r = Self {
                title: title.to_owned(),
                height: 1,
                width: (title.len() % 0x10000) as u16,
                items: Vec::new(),
            };
            proof {
                assert(pairs(r.items@) =~= pairs(body@));
            }
            return r;
        }
        let mut items: Vec<(String, String)> = Vec::new();
        let mut i: usize = 0;
        while i < body.len()
            invariant
                i <= body.len(),
                items@.len() == i,
                forall|j: int| 0 <= j < i ==> pairs(items@)[j] == #[trigger] pairs(body@)[j],
            decreases body.len() - i,
        {
            items.push((body[i].0.clone(), body[i].1.clone()));
            i += 1;
        }
        proof {
            assert(pairs(items@) =~= pairs(body@));
        }
        Self {
            title: title.to_owned(),
            width: (key_width % 0x10000) as u16 + (text_width % 0x10000) as u16 + 4,
            height: (body.len() % 0x10000) as u16,
            items,
        }
    }

    /// A box for `body` under `title`. An empty body gives a box of one row,
    /// as wide as the title is long in bytes; any other a row for each pair,
    /// and the width of the body.
    pub fn new(title: &str, body: &[(String, String)]) -> (r: Self)
        requires
            body@.len() > 0 ==> body_width(pairs(body@)) <= u16::MAX,
        ensures
            r.title@ == title@,
            pairs(r.items@) == pairs(body@),
            body@.len() == 0 ==> r.height == 1 && r.width == columns(title.len() as nat),
            body@.len() > 0 ==> r.height == columns(body@.len()) && r.width == body_width(
                pairs(body@),
            ),
    {
        let (key_width, text_width) = measure(body);
        Self::with_widths(title, body, key_width, text_width)
    }

    /// The box that `new` makes, and `None` where the body is too wide for
    /// a width of 16 bits to hold.
    pub fn try_new(title: &str, body: &[(String, String)]) -> (r: Option<Self>)
        ensures
            r.is_some() == (body@.len() > 0 ==> body_width(pairs(body@)) <= u16::MAX),
            r.is_some() ==> r.unwrap().title@ == title@ && pairs(r.unwrap().items@) == pairs(
                body@,
            ),
            r.is_some() && body@.len() == 0 ==> r.unwrap().height == 1 && r.unwrap().width
                == columns(title.len() as nat),
            r.is_some() && body@.len() > 0 ==> r.unwrap().height == columns(body@.len())
                && r.unwrap().width == body_width(pairs(body@)),
    {
        if body.len() > 0 {
            let (key_width, text_width) = measure(body);
            if key_width % 0x10000 + text_width % 0x10000 + 4 > 0xffff {
                return None;
            }
        }
        Some(Self::new(title, body))
    }
}

} // verus!
