use vstd::prelude::*;

use crate::chars::chars_to_string;
use crate::chars::str_to_chars;
use crate::digits::dec_int;
use crate::digits::is_digit;
use crate::digits::push_dec_i64;
use crate::model::ItemModel;
use crate::model::ToDoItem;
use crate::model::ts_in_range;

verus! {

/// Pads a rendered id on the left with spaces to at least four columns.
pub open spec fn pad4(s: Seq<char>) -> Seq<char> {
    if s.len() >= 4 {
        s
    } else if s.len() == 3 {
        seq![' '] + s
    } else if s.len() == 2 {
        seq![' ', ' '] + s
    } else if s.len() == 1 {
        seq![' ', ' ', ' '] + s
    } else {
        seq![' ', ' ', ' ', ' ']
    }
}

pub open spec fn marker(done: bool) -> Seq<char> {
    if done {
        seq!['X']
    } else {
        seq![' ']
    }
}

/// One listing line: the id with a period padded to four columns, the
/// completion marker in brackets, the text, and the detail suffix.
pub open spec fn line_of(m: ItemModel, details: Seq<char>) -> Seq<char> {
    pad4(dec_int(m.id) + seq!['.']) + seq![' ', '['] + marker(m.done) + seq![']', ' '] + m.text
        + seq![' '] + details
}

/// A character the clock format can emit: its output is made of digits,
/// signs, colons, hyphens and spaces, never letters.
pub open spec fn ts_text_char(ch: char) -> bool {
    ||| is_digit(ch)
    ||| ch == '-'
    ||| ch == '+'
    ||| ch == ':'
    ||| ch == ' '
}

/// A formatted local time: nonempty clock text.
pub open spec fn ts_text(s: Seq<char>) -> bool {
    s.len() > 0 && forall|i: int| 0 <= i < s.len() ==> ts_text_char(#[trigger] s[i])
}

/// The verbose detail suffix, given the formatted local times.
pub open spec fn details_of(created: Seq<char>, completed: Option<Seq<char>>) -> Seq<char> {
    "(created: "@ + created + (match completed {
        Some(c) => " completed: "@ + c,
        None => Seq::<char>::empty(),
    }) + ")"@
}

/// What a rendering of `m` looks like: without the verbose flag the line
/// with an empty suffix; with it, the line with a detail suffix built from
/// formatted times that are clock text, a completion time standing there
/// exactly when the item carries one. The exact time text depends on the
/// machine's local time zone; that it is nonempty letter-free clock text
/// does not, and keeps the suffix's two forms apart.
pub open spec fn rendered(m: ItemModel, out: Seq<char>, verbose: bool) -> bool {
    if !verbose {
        out == line_of(m, Seq::<char>::empty())
    } else {
        exists|c: Seq<char>, d: Option<Seq<char>>|
            out == #[trigger] line_of(m, details_of(c, d)) && (d is Some <==> m.completed_date
                is Some) && ts_text(c) && (d matches Some(x) ==> ts_text(x))
    }
}

/// Relies on chrono's `DateTime::from_timestamp`, `with_timezone` to
/// `Local` and `format` with `%Y-%m-%d %H:%M:%S`: renders the given Unix
/// second in the machine's local time zone. The accepted range keeps the
/// instant representable, so the fallback arm never runs. Which instant
/// the text shows depends on the time zone; that the format writes a
/// nonempty string of digits, signs, colons, hyphens and spaces does not,
/// and is all that is claimed.
#[verifier::external_body]
fn format_local_timestamp(secs: i64) -> (r: String)
    requires
        ts_in_range(secs as int),
    ensures
        ts_text(r@),
{
    match chrono::DateTime::from_timestamp(secs, 0) {
        Some(d) => d.with_timezone(&chrono::Local).format("%Y-%m-%d %H:%M:%S").to_string(),
        None => String::new(),
    }
}

/// An open item's verbose suffix never names a completion: when the
/// completion slot is empty, the text `" completed: "` occurs nowhere in
/// the suffix, because its inner text is letter-free clock text.
pub proof fn lemma_open_details_no_completion(c: Seq<char>)
    requires
        ts_text(c),
    ensures
        forall|j: int|
            0 <= j && j + " completed: "@.len() <= details_of(c, None).len() ==> #[trigger] details_of(
                c,
                None,
            ).subrange(j, j + " completed: "@.len()) != " completed: "@,
{
    reveal_strlit("(created: ");
    reveal_strlit(" completed: ");
    reveal_strlit(")");
    let pre = "(created: "@;
    let d = details_of(c, None);
    assert(d =~= pre + c + ")"@);
    // no character of the suffix is the letter of the probe
    assert forall|k: int| 0 <= k < d.len() implies d[k] != 'm' by {
        if k < pre.len() {
            assert(d[k] == pre[k]);
        } else if k < pre.len() + c.len() {
            assert(d[k] == c[k - pre.len()]);
            assert(ts_text_char(c[k - pre.len()]));
        } else {
            assert(d[k] == ")"@[k - pre.len() - c.len()]);
        }
    }
    assert forall|j: int|
        0 <= j && j + " completed: "@.len() <= d.len() implies #[trigger] d.subrange(
        j,
        j + " completed: "@.len(),
    ) != " completed: "@ by {
        if d.subrange(j, j + " completed: "@.len()) == " completed: "@ {
            assert(d.subrange(j, j + " completed: "@.len())[3] == d[j + 3]);
            assert(" completed: "@[3] == 'm');
        }
    }
}

proof fn lemma_pad4_space(s: Seq<char>)
    requires
        s.len() <= 3,
    ensures
        pad4(seq![' '] + s) == pad4(s),
{
    if s.len() == 3 {
    } else if s.len() == 2 {
        assert(pad4(seq![' '] + s) =~= pad4(s));
    } else if s.len() == 1 {
        assert(pad4(seq![' '] + s) =~= pad4(s));
    } else {
        assert(pad4(seq![' '] + s) =~= pad4(s));
    }
}

impl ToDoItem {
    /// The parenthesized timestamp details, shown in verbose mode; empty
    /// otherwise.
    pub fn format_verbose_details(&self, verbose: bool) -> (r: String)
        requires
            verbose ==> self.dates_in_range(),
        ensures
            !verbose ==> r@ == Seq::<char>::empty(),
            verbose ==> exists|c: Seq<char>, d: Option<Seq<char>>|
                r@ == #[trigger] details_of(c, d) && (d is Some <==> self.completed_date is Some)
                    && ts_text(c) && (d matches Some(x) ==> ts_text(x)),
    {
        if !verbose {
            let r = String::new();
            return r;
        }
        let created = format_local_timestamp(self.created_date);
        let completed: Option<String> = match self.completed_date {
            Some(t) => Some(format_local_timestamp(t)),
            None => None,
        };
        let mut out: Vec<char> = Vec::new();
        let mut piece = str_to_chars("(created: ");
        out.append(&mut piece);
        let mut cc = str_to_chars(created.as_str());
        out.append(&mut cc);
        match &completed {
            Some(f) => {
                let mut sep = str_to_chars(" completed: ");
                out.append(&mut sep);
                let mut fc = str_to_chars(f.as_str());
                out.append(&mut fc);
            },
            None => {},
        }
        let mut close = str_to_chars(")");
        out.append(&mut close);
        let r = chars_to_string(&out);
        proof {
            let dd = match completed {
                Some(f) => Some(f@),
                None => None::<Seq<char>>,
            };
            assert(r@ == details_of(created@, dd)) by {
                assert(r@ =~= details_of(created@, dd));
            }
            assert(dd is Some <==> self.completed_date is Some);
        }
        r
    }

    /// The listing line for this item.
    pub fn to_string(&self, verbose: bool) -> (r: String)
        requires
            verbose ==> self.dates_in_range(),
        ensures
            rendered(self@, r@, verbose),
    {
        let details = self.format_verbose_details(verbose);
        let mut idbuf: Vec<char> = Vec::new();
        push_dec_i64(&mut idbuf, self.id as i64);
        idbuf.push('.');
        let ghost idc = idbuf@;
        proof {
            assert(idc == dec_int(self@.id) + seq!['.']) by {
                assert(idc =~= dec_int(self@.id) + seq!['.']);
            }
        }
        while idbuf.len() < 4
            invariant
                pad4(idbuf@) == pad4(idc),
            decreases 4 - idbuf@.len(),
        {
            let ghost pre = idbuf@;
            idbuf.insert(0, ' ');
            proof {
                assert(idbuf@ =~= seq![' '] + pre);
                lemma_pad4_space(pre);
            }
        }
        proof {
            assert(idbuf@ == pad4(idc));
        }
        let mut out: Vec<char> = Vec::new();
        out.append(&mut idbuf);
        out.push(' ');
        out.push('[');
        out.push(if self.done {
            'X'
        } else {
            ' '
        });
        out.push(']');
        out.push(' ');
        let mut tc = str_to_chars(self.text.as_str());
        out.append(&mut tc);
        out.push(' ');
        let mut dc = str_to_chars(details.as_str());
        out.append(&mut dc);
        let r = chars_to_string(&out);
        proof {
            assert(r@ == line_of(self@, details@)) by {
                assert(r@ =~= line_of(self@, details@));
            }
            if verbose {
                let (c, d) = choose|c: Seq<char>, d: Option<Seq<char>>|
                    details@ == #[trigger] details_of(c, d) && (d is Some
                        <==> self.completed_date is Some) && ts_text(c) && (d matches Some(x)
                        ==> ts_text(x));
                assert(r@ == line_of(self@, details_of(c, d)));
            }
        }
        r
    }
}

} // verus!
