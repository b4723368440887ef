//! The response decoder: a pull tokenizer over the document bytes, and the
//! recursive-descent grammar that turns the token stream into a `Response`.
//!
//! The tokenizer rejects, as the wire format requires, any tag that carries
//! an attribute and any namespaced or prefixed tag name. Whitespace-only
//! character data between tags, comments, processing instructions and the
//! document type declaration are skipped.

use vstd::prelude::*;

use crate::b64::decode_base64_text;
use crate::bytes::bytes_eq;
use crate::dbl::check_f64_text;
use crate::datetime::parse_datetime;
use crate::error::ParseError;
use crate::escape::{escape_spec, unescape_text};
use crate::bytes::clone_bytes;
use crate::fault::{Fault, FaultView};
use crate::numtext::{parse_i32, parse_i64};
use crate::value::{
    elems_view, entries_view, lemma_struct_set_wf, struct_set, view_of, wf_view, Value, ValueView,
};

verus! {

/// A response from the server: a single value, or a `<fault>`.
pub type Response = Result<Value, Fault>;

/// One token of the XML stream, as the grammar sees it.
#[derive(Debug)]
pub enum Token {
    /// An opening tag. The tokenizer has already checked that it carries no
    /// attributes and no namespace prefix.
    Start { name: Vec<u8> },
    /// A closing tag.
    End { name: Vec<u8> },
    /// A run of character data, entities decoded, or a CDATA section.
    Text { data: Vec<u8> },
    /// The end of the document.
    Eof,
}

/// The model of a token.
pub ghost enum TokView {
    Start(Seq<u8>),
    End(Seq<u8>),
    Text(Seq<u8>),
    Eof,
}

impl View for Token {
    type V = TokView;

    open spec fn view(&self) -> TokView {
        match self {
            Token::Start { name } => TokView::Start(name@),
            Token::End { name } => TokView::End(name@),
            Token::Text { data } => TokView::Text(data@),
            Token::Eof => TokView::Eof,
        }
    }
}

/// How a token is described in an error message: the tag in angle
/// brackets, quoted text, or `end of data`.
pub open spec fn found_text(t: TokView) -> Seq<u8> {
    match t {
        TokView::Start(n) => seq![60u8] + n + seq![62u8],
        TokView::End(n) => seq![60u8, 47u8] + n + seq![62u8],
        TokView::Text(d) => seq![34u8] + d + seq![34u8],
        TokView::Eof => seq![
            101u8,
            110u8,
            100u8,
            32u8,
            111u8,
            102u8,
            32u8,
            100u8,
            97u8,
            116u8,
            97u8,
        ],  // end of data
    }
}

/// The byte-level scanner: pulls one token at a time from the document.
struct Scanner {
    doc: Vec<u8>,
    /// The scan position: everything before it, the current token included,
    /// has been consumed.
    pos: usize,
    row: usize,
    col: usize,
    /// Where the most recently scanned token starts; errors point here.
    last_row: usize,
    last_col: usize,
    /// The current token. Decisions are made on it, then the next one is
    /// pulled.
    cur: Token,
    /// The pending closing tag of a self-closing element.
    pend: Option<Vec<u8>>,
}

spec fn sdoc(p: Scanner) -> Seq<u8> {
    p.doc@
}

spec fn scanner_inv(p: Scanner) -> bool {
    p.pos <= p.doc@.len()
}

/// The termination measure of a scanner: the bytes not yet consumed, plus
/// one for a live current token and one for a pending closing tag.
spec fn smeasure(p: Scanner) -> int {
    p.doc@.len() - p.pos + (if p.cur is Eof {
        0int
    } else {
        1int
    }) + (if p.pend is Some {
        1int
    } else {
        0int
    })
}


/// First position at or after `from` where the two-byte pattern starts,
/// or -1.
pub open spec fn sp_find2(doc: Seq<u8>, from: int, a: u8, b: u8) -> int
    decreases doc.len() - from,
{
    if !(0 <= from && from + 2 <= doc.len()) {
        -1
    } else if doc[from] == a && doc[from + 1] == b {
        from
    } else {
        sp_find2(doc, from + 1, a, b)
    }
}

/// First position at or after `from` where the three-byte pattern starts,
/// or -1.
pub open spec fn sp_find3(doc: Seq<u8>, from: int, a: u8, b: u8, c: u8) -> int
    decreases doc.len() - from,
{
    if !(0 <= from && from + 3 <= doc.len()) {
        -1
    } else if doc[from] == a && doc[from + 1] == b && doc[from + 2] == c {
        from
    } else {
        sp_find3(doc, from + 1, a, b, c)
    }
}

/// First `>` at or after `from`, or -1.
pub open spec fn sp_find_gt(doc: Seq<u8>, from: int) -> int
    decreases doc.len() - from,
{
    if !(0 <= from && from < doc.len()) {
        -1
    } else if doc[from] == 62 {
        from
    } else {
        sp_find_gt(doc, from + 1)
    }
}

/// The end of a tag name starting at `from`: the first whitespace, `/` or
/// `>`, or the end of the document.
pub open spec fn sp_name_end(doc: Seq<u8>, from: int) -> int
    decreases doc.len() - from,
{
    if !(0 <= from && from < doc.len()) {
        from
    } else if doc[from] == 62 || doc[from] == 47 || crate::b64::is_ws(doc[from]) {
        from
    } else {
        sp_name_end(doc, from + 1)
    }
}

/// The first non-whitespace position at or after `from`.
pub open spec fn sp_ws_end(doc: Seq<u8>, from: int) -> int
    decreases doc.len() - from,
{
    if !(0 <= from && from < doc.len()) {
        from
    } else if crate::b64::is_ws(doc[from]) {
        sp_ws_end(doc, from + 1)
    } else {
        from
    }
}

/// The end of the run of character data starting at `from`: the first `<`
/// or the end of the document.
pub open spec fn sp_text_end(doc: Seq<u8>, from: int) -> int
    decreases doc.len() - from,
{
    if !(0 <= from && from < doc.len()) {
        from
    } else if doc[from] == 60 {
        from
    } else {
        sp_text_end(doc, from + 1)
    }
}

/// Nothing besides whitespace.
pub open spec fn all_ws(s: Seq<u8>) -> bool {
    forall|k: int| 0 <= k < s.len() ==> crate::b64::is_ws(#[trigger] s[k])
}


/// One step of the scanner.
pub ghost enum ScanOut {
    /// A token, the pending closing tag it leaves behind (for a
    /// self-closing element), and the position after it.
    Tok { t: TokView, pend: Option<Seq<u8>>, end: int },
    /// Malformed input below the token grammar, an attribute, or a
    /// prefixed name.
    Fail,
}

pub open spec fn opt_view(o: Option<Vec<u8>>) -> Option<Seq<u8>> {
    match o {
        Some(v) => Some(v@),
        None => None,
    }
}

/// What the scanner yields at `pos`, insignificant content (whitespace
/// between tags, comments, processing instructions, the document type
/// declaration) skipped.
pub open spec fn sp_next(doc: Seq<u8>, pos: int) -> ScanOut
    decreases doc.len() - pos,
{
    if !(0 <= pos <= doc.len()) {
        ScanOut::Fail
    } else if pos == doc.len() {
        ScanOut::Tok { t: TokView::Eof, pend: None, end: pos }
    } else if doc[pos] != 60 {
        let e = sp_text_end(doc, pos);
        if all_ws(doc.subrange(pos, e)) {
            if pos < e <= doc.len() {
                sp_next(doc, e)
            } else {
                ScanOut::Fail
            }
        } else {
            match crate::escape::unescape_spec(doc.subrange(pos, e)) {
                Some(d) => ScanOut::Tok { t: TokView::Text(d), pend: None, end: e },
                None => ScanOut::Fail,
            }
        }
    } else if pos + 1 == doc.len() {
        ScanOut::Fail
    } else if doc[pos + 1] == 63 {
        let j = sp_find2(doc, pos + 2, 63, 62);
        if pos + 2 <= j && j + 2 <= doc.len() {
            sp_next(doc, j + 2)
        } else {
            ScanOut::Fail
        }
    } else if doc[pos + 1] == 33 {
        if doc.len() - pos > 3 && doc[pos + 2] == 45 && doc[pos + 3] == 45 {
            let j = sp_find3(doc, pos + 4, 45, 45, 62);
            if pos + 4 <= j && j + 3 <= doc.len() {
                sp_next(doc, j + 3)
            } else {
                ScanOut::Fail
            }
        } else if doc.len() - pos > 8 && doc[pos + 2] == 91 && doc[pos + 3] == 67 && doc[pos + 4]
            == 68 && doc[pos + 5] == 65 && doc[pos + 6] == 84 && doc[pos + 7] == 65 && doc[pos + 8]
            == 91 {
            let j = sp_find3(doc, pos + 9, 93, 93, 62);
            if pos + 9 <= j && j + 3 <= doc.len() {
                ScanOut::Tok { t: TokView::Text(doc.subrange(pos + 9, j)), pend: None, end: j + 3 }
            } else {
                ScanOut::Fail
            }
        } else {
            let j = sp_find_gt(doc, pos + 2);
            if pos + 2 <= j && j + 1 <= doc.len() {
                sp_next(doc, j + 1)
            } else {
                ScanOut::Fail
            }
        }
    } else if doc[pos + 1] == 47 {
        let ne = sp_name_end(doc, pos + 2);
        if ne == pos + 2 {
            ScanOut::Fail
        } else if exists|k: int| pos + 2 <= k < ne && #[trigger] doc[k] == 58 {
            ScanOut::Fail
        } else {
            let k = sp_ws_end(doc, ne);
            if k < doc.len() && doc[k] == 62 {
                ScanOut::Tok { t: TokView::End(doc.subrange(pos + 2, ne)), pend: None, end: k + 1 }
            } else {
                ScanOut::Fail
            }
        }
    } else {
        let ne = sp_name_end(doc, pos + 1);
        if ne == pos + 1 {
            ScanOut::Fail
        } else if exists|k: int| pos + 1 <= k < ne && #[trigger] doc[k] == 58 {
            ScanOut::Fail
        } else {
            let k = sp_ws_end(doc, ne);
            let name = doc.subrange(pos + 1, ne);
            if k < doc.len() && doc[k] == 62 {
                ScanOut::Tok { t: TokView::Start(name), pend: None, end: k + 1 }
            } else if k < doc.len() && doc.len() - k > 1 && doc[k] == 47 && doc[k + 1] == 62 {
                ScanOut::Tok { t: TokView::Start(name), pend: Some(name), end: k + 2 }
            } else {
                ScanOut::Fail
            }
        }
    }
}

/// One scanner step from a full state: a pending closing tag is delivered
/// first, without consuming input.
pub open spec fn sp_step(doc: Seq<u8>, pos: int, pend: Option<Seq<u8>>) -> ScanOut {
    match pend {
        Some(nm) => ScanOut::Tok { t: TokView::End(nm), pend: None, end: pos },
        None => sp_next(doc, pos),
    }
}

pub open spec fn pend_bit(o: Option<Seq<u8>>) -> int {
    if o is Some {
        1
    } else {
        0
    }
}

/// All the tokens of a document from a scanner state on, or `None` where
/// the scan fails.
pub open spec fn sp_tokens(doc: Seq<u8>, pos: int, pend: Option<Seq<u8>>) -> Option<Seq<TokView>>
    decreases 2 * (doc.len() - pos) + pend_bit(pend),
{
    match sp_step(doc, pos, pend) {
        ScanOut::Tok { t, pend: pend2, end } => {
            if t is Eof {
                Some(Seq::empty())
            } else {
                if 0 <= 2 * (doc.len() - end) + pend_bit(pend2) < 2 * (doc.len() - pos) + pend_bit(
                    pend,
                ) {
                    match sp_tokens(doc, end, pend2) {
                        Some(rest) => Some(seq![t] + rest),
                        None => None,
                    }
                } else {
                    None
                }
            }
        },
        ScanOut::Fail => None,
    }
}

/// What a complete document stands for: its tokens read as a
/// `<methodResponse>`, a fault or a single value; `None` where the scan
/// or the grammar rejects it.
pub open spec fn response_text(doc: Seq<u8>) -> Option<Result<ValueView, FaultView>> {
    match sp_tokens(doc, 0, None) {
        Some(ts) => tok_response(ts),
        None => None,
    }
}

/// Copies `doc[a..b]`.
fn copy_range(doc: &Vec<u8>, a: usize, b: usize) -> (r: Vec<u8>)
    requires
        a <= b <= doc@.len(),
    ensures
        r@ == doc@.subrange(a as int, b as int),
{
    let mut out: Vec<u8> = Vec::new();
    let mut i: usize = a;
    proof {
        assert(doc@.subrange(a as int, a as int) =~= Seq::<u8>::empty());
    }
    while i < b
        invariant
            a <= i <= b <= doc@.len(),
            out@ == doc@.subrange(a as int, i as int),
        decreases b - i,
    {
        out.push(doc[i]);
        proof {
            assert(doc@.subrange(a as int, i + 1) =~= doc@.subrange(a as int, i as int).push(
                doc@[i as int],
            ));
        }
        i = i + 1;
    }
    out
}

impl Scanner {
    /// Advances the scan position to `to`, keeping row and column counts.
    fn advance(&mut self, to: usize)
        requires
            scanner_inv(*old(self)),
            old(self).pos <= to <= old(self).doc@.len(),
        ensures
            scanner_inv(*final (self)),
            sdoc(*final (self)) == sdoc(*old(self)),
            final (self).cur == old(self).cur,
            final (self).pend == old(self).pend,
            final (self).last_row == old(self).last_row,
            final (self).last_col == old(self).last_col,
            final (self).pos == to,
    {
        while self.pos < to
            invariant
                self.pos <= to <= self.doc@.len(),
                self.doc@ == old(self).doc@,
                self.cur == old(self).cur,
                self.pend == old(self).pend,
                self.last_row == old(self).last_row,
                self.last_col == old(self).last_col,
            decreases to - self.pos,
        {
            let b = self.doc[self.pos];
            if b == 10 {
                if self.row < usize::MAX {
                    self.row = self.row + 1;
                }
                self.col = 1;
            } else {
                if self.col < usize::MAX {
                    self.col = self.col + 1;
                }
            }
            self.pos = self.pos + 1;
        }
    }

    /// Marks the current scan position as the start of the token being
    /// read; errors point at the mark.
    fn mark(&mut self)
        requires
            scanner_inv(*old(self)),
        ensures
            scanner_inv(*final (self)),
            sdoc(*final (self)) == sdoc(*old(self)),
            final (self).cur == old(self).cur,
            final (self).pend == old(self).pend,
            final (self).pos == old(self).pos,
    {
        self.last_row = self.row;
        self.last_col = self.col;
    }

    /// Describes the current token for an error message.
    fn found_desc(&self) -> (r: Option<Vec<u8>>)
        ensures
            r matches Some(d) ==> d@ == found_text(self.cur@),
            r is Some,
    {
        match &self.cur {
            Token::Start { name } => {
                let mut d: Vec<u8> = Vec::new();
                d.push(60);
                crate::encode::push_slice(&mut d, name.as_slice());
                d.push(62);
                proof {
                    assert(d@ =~= found_text(self.cur@));
                }
                Some(d)
            },
            Token::End { name } => {
                let mut d: Vec<u8> = Vec::new();
                d.push(60);
                d.push(47);
                crate::encode::push_slice(&mut d, name.as_slice());
                d.push(62);
                proof {
                    assert(d@ =~= found_text(self.cur@));
                }
                Some(d)
            },
            Token::Text { data } => {
                let mut d: Vec<u8> = Vec::new();
                d.push(34);
                crate::encode::push_slice(&mut d, data.as_slice());
                d.push(34);
                proof {
                    assert(d@ =~= found_text(self.cur@));
                }
                Some(d)
            },
            Token::Eof => {
                // end of data
                let l: [u8; 11] = [101, 110, 100, 32, 111, 102, 32, 100, 97, 116, 97];
                let d = clone_bytes(l.as_slice());
                proof {
                    assert(d@ =~= found_text(self.cur@));
                }
                Some(d)
            },
        }
    }

    /// Builds an error naming the expected construct, what stands in its
    /// place (the current token), and the marked position.
    fn expected_err(&self, expected: Vec<u8>) -> (r: ParseError)
        ensures
            r@ == (crate::error::ParseErrorView::Unexpected {
                expected: expected@,
                found: Some(found_text(self.cur@)),
                row: self.last_row as int,
                col: self.last_col as int,
            }),
    {
        ParseError::unexpected(expected, self.found_desc(), self.last_row, self.last_col)
    }

    /// Builds a syntax error carrying the message and the marked position.
    fn syntax_err(&self, msg: &[u8]) -> (r: ParseError)
        ensures
            r@ == (crate::error::ParseErrorView::Syntax {
                msg: msg@,
                row: self.last_row as int,
                col: self.last_col as int,
            }),
    {
        ParseError::syntax(clone_bytes(msg), self.last_row, self.last_col)
    }

    /// Finds the two-byte pattern from `from` on: the index where it
    /// starts, or `None`.
    fn find2(&self, from: usize, a: u8, b: u8) -> (r: Option<usize>)
        requires
            scanner_inv(*self),
            from <= self.doc@.len(),
        ensures
            r matches Some(j) ==> from <= j && j + 2 <= self.doc@.len() && sp_find2(
                self.doc@,
                from as int,
                a,
                b,
            ) == j,
            r is None ==> sp_find2(self.doc@, from as int, a, b) == -1,
    {
        let n = self.doc.len();
        if n < 2 {
            return None;
        }
        let mut i: usize = from;
        while i <= n - 2
            invariant
                from <= i <= n,
                n == self.doc@.len(),
                n >= 2,
                sp_find2(self.doc@, from as int, a, b) == sp_find2(self.doc@, i as int, a, b),
            decreases n - i,
        {
            if self.doc[i] == a && self.doc[i + 1] == b {
                return Some(i);
            }
            i = i + 1;
        }
        None
    }

    /// Finds the three-byte pattern from `from` on.
    fn find3(&self, from: usize, a: u8, b: u8, c: u8) -> (r: Option<usize>)
        requires
            scanner_inv(*self),
            from <= self.doc@.len(),
        ensures
            r matches Some(j) ==> from <= j && j + 3 <= self.doc@.len() && sp_find3(
                self.doc@,
                from as int,
                a,
                b,
                c,
            ) == j,
            r is None ==> sp_find3(self.doc@, from as int, a, b, c) == -1,
    {
        let n = self.doc.len();
        if n < 3 {
            return None;
        }
        let mut i: usize = from;
        while i <= n - 3
            invariant
                from <= i <= n,
                n == self.doc@.len(),
                n >= 3,
                sp_find3(self.doc@, from as int, a, b, c) == sp_find3(
                    self.doc@,
                    i as int,
                    a,
                    b,
                    c,
                ),
            decreases n - i,
        {
            if self.doc[i] == a && self.doc[i + 1] == b && self.doc[i + 2] == c {
                return Some(i);
            }
            i = i + 1;
        }
        None
    }

    /// Finds the next `>` from `from` on.
    fn find_gt(&self, from: usize) -> (r: Option<usize>)
        requires
            scanner_inv(*self),
            from <= self.doc@.len(),
        ensures
            r matches Some(j) ==> from <= j && j + 1 <= self.doc@.len() && sp_find_gt(
                self.doc@,
                from as int,
            ) == j,
            r is None ==> sp_find_gt(self.doc@, from as int) == -1,
    {
        let n = self.doc.len();
        let mut i: usize = from;
        while i < n
            invariant
                from <= i,
                n == self.doc@.len(),
                sp_find_gt(self.doc@, from as int) == sp_find_gt(self.doc@, i as int),
            decreases n - i,
        {
            if self.doc[i] == 62 {
                return Some(i);
            }
            i = i + 1;
        }
        None
    }

    /// The end of a tag name starting at `from`: the first whitespace, `/`
    /// or `>`; also reports whether the name holds a `:`.
    fn scan_name(&self, from: usize) -> (r: (usize, bool))
        requires
            scanner_inv(*self),
            from <= self.doc@.len(),
        ensures
            from <= r.0 <= self.doc@.len(),
            r.0 as int == sp_name_end(self.doc@, from as int),
            r.1 <==> exists|k: int| from <= k < r.0 && self.doc@[k] == 58,
    {
        let n = self.doc.len();
        let mut i: usize = from;
        let mut colon = false;
        while i < n
            invariant
                from <= i <= n,
                n == self.doc@.len(),
                sp_name_end(self.doc@, from as int) == sp_name_end(self.doc@, i as int),
                colon <==> exists|k: int| from <= k < i && self.doc@[k] == 58,
            decreases n - i,
        {
            let b = self.doc[i];
            if b == 62 || b == 47 || b == 32 || b == 9 || b == 10 || b == 13 {
                return (i, colon);
            }
            if b == 58 {
                colon = true;
                proof {
                    assert(from <= i < i + 1 && self.doc@[i as int] == 58);
                }
            }
            i = i + 1;
        }
        (n, colon)
    }

    /// The first non-whitespace position from `from` on.
    fn skip_ws(&self, from: usize) -> (r: usize)
        requires
            scanner_inv(*self),
            from <= self.doc@.len(),
        ensures
            from <= r <= self.doc@.len(),
            r as int == sp_ws_end(self.doc@, from as int),
    {
        let n = self.doc.len();
        let mut i: usize = from;
        while i < n
            invariant
                from <= i <= n,
                n == self.doc@.len(),
                sp_ws_end(self.doc@, from as int) == sp_ws_end(self.doc@, i as int),
            decreases n - i,
        {
            let b = self.doc[i];
            if !(b == 32 || b == 9 || b == 10 || b == 13) {
                return i;
            }
            i = i + 1;
        }
        n
    }

    /// The end of the run of character data starting at `from`, and
    /// whether the raw run holds anything besides whitespace.
    fn scan_text(&self, from: usize) -> (r: (usize, bool))
        requires
            scanner_inv(*self),
            from < self.doc@.len(),
            self.doc@[from as int] != 60,
        ensures
            from < r.0 <= self.doc@.len(),
            r.0 as int == sp_text_end(self.doc@, from as int),
            r.1 <==> !all_ws(self.doc@.subrange(from as int, r.0 as int)),
    {
        let n = self.doc.len();
        let mut i: usize = from;
        let mut non_ws = false;
        while i < n
            invariant
                from <= i <= n,
                n == self.doc@.len(),
                self.doc@[from as int] != 60,
                i == from ==> !non_ws,
                sp_text_end(self.doc@, from as int) == sp_text_end(self.doc@, i as int),
                non_ws <==> !all_ws(self.doc@.subrange(from as int, i as int)),
            decreases n - i,
        {
            let b = self.doc[i];
            if b == 60 {
                return (i, non_ws);
            }
            if !(b == 32 || b == 9 || b == 10 || b == 13) {
                non_ws = true;
            }
            proof {
                let sub1 = self.doc@.subrange(from as int, i + 1);
                let sub0 = self.doc@.subrange(from as int, i as int);
                assert(sub1 =~= sub0.push(self.doc@[i as int]));
                assert(sub1[i - from] == self.doc@[i as int]);
                if all_ws(sub0) && crate::b64::is_ws(self.doc@[i as int]) {
                    assert forall|k: int| 0 <= k < sub1.len() implies crate::b64::is_ws(
                        #[trigger] sub1[k],
                    ) by {
                        if k < sub0.len() {
                            assert(sub1[k] == sub0[k]);
                        }
                    }
                }
                if !all_ws(sub0) {
                    let w = choose|k: int| 0 <= k < sub0.len() && !crate::b64::is_ws(sub0[k]);
                    assert(!crate::b64::is_ws(sub1[w]));
                }
            }
            i = i + 1;
        }
        (n, non_ws)
    }

    /// Disposes the current token and pulls the next one, skipping
    /// whitespace between tags, comments, processing instructions and the
    /// document type declaration. Any tag carrying an attribute, and any
    /// namespaced or prefixed tag, is an error.
    #[verifier::rlimit(100)]
    #[verifier::spinoff_prover]
    fn next(&mut self) -> (r: Result<(), ParseError>)
        requires
            scanner_inv(*old(self)),
        ensures
            scanner_inv(*final (self)),
            sdoc(*final (self)) == sdoc(*old(self)),
            smeasure(*final (self)) <= smeasure(*old(self)),
            r is Ok && !(old(self).cur is Eof) ==> smeasure(*final (self)) < smeasure(
                *old(self),
            ),
            r is Ok ==> sp_step(sdoc(*old(self)), old(self).pos as int, opt_view(old(self).pend))
                == (ScanOut::Tok {
                t: final (self).cur@,
                pend: opt_view(final (self).pend),
                end: final (self).pos as int,
            }),
            r is Err ==> sp_step(
                sdoc(*old(self)),
                old(self).pos as int,
                opt_view(old(self).pend),
            ) is Fail,
            r is Ok && !(final (self).cur is Eof) ==> 2 * (sdoc(*old(self)).len()
                - final (self).pos) + pend_bit(opt_view(final (self).pend)) < 2 * (sdoc(
                *old(self),
            ).len() - old(self).pos) + pend_bit(opt_view(old(self).pend)),
            r is Ok && final (self).cur is Eof ==> final (self).pos == sdoc(*old(self)).len()
                && final (self).pend is None,
    {
        // deliver the pending closing tag of a self-closing element
        let pend = self.pend.take();
        match pend {
            Some(name) => {
                self.cur = Token::End { name };
                proof {
                    assert(self.cur@ == TokView::End(name@));
                }
                return Ok(());
            },
            None => {},
        }
        let ghost doc0 = self.doc@;
        let ghost pos0 = self.pos;
        let ghost cur0 = self.cur;
        loop
            invariant
                scanner_inv(*self),
                self.doc@ == doc0,
                doc0 == old(self).doc@,
                self.pos >= pos0,
                pos0 == old(self).pos,
                self.cur == cur0,
                cur0 == old(self).cur,
                self.pend is None,
                old(self).pend is None,
                sp_next(doc0, pos0 as int) == sp_next(doc0, self.pos as int),
            decreases self.doc@.len() - self.pos,
        {
            let n = self.doc.len();
            if self.pos == n {
                self.mark();
                self.cur = Token::Eof;
                proof {
                    assert(sp_next(doc0, self.pos as int) == (ScanOut::Tok {
                        t: TokView::Eof,
                        pend: None::<Seq<u8>>,
                        end: self.pos as int,
                    }));
                }
                return Ok(());
            }
            let start = self.pos;
            let b = self.doc[start];
            if b != 60 {
                // character data
                let (e, non_ws) = self.scan_text(start);
                if !non_ws {
                    proof {
                        assert(sp_next(doc0, start as int) == sp_next(doc0, e as int));
                    }
                    self.advance(e);
                    continue ;
                }
                let raw = copy_range(&self.doc, start, e);
                self.mark();
                match unescape_text(raw.as_slice()) {
                    Some(d) => {
                        proof {
                            assert(sp_next(doc0, start as int) == (ScanOut::Tok {
                                t: TokView::Text(d@),
                                pend: None::<Seq<u8>>,
                                end: e as int,
                            }));
                        }
                        self.advance(e);
                        self.cur = Token::Text { data: d };
                        return Ok(());
                    },
                    None => {
                        let l: [u8; 37] = [
                            105,
                            110,
                            118,
                            97,
                            108,
                            105,
                            100,
                            32,
                            101,
                            110,
                            116,
                            105,
                            116,
                            121,
                            32,
                            111,
                            114,
                            32,
                            99,
                            104,
                            97,
                            114,
                            97,
                            99,
                            116,
                            101,
                            114,
                            32,
                            114,
                            101,
                            102,
                            101,
                            114,
                            101,
                            110,
                            99,
                            101,
                        ];
                        // invalid entity or character reference
                        return Err(self.syntax_err(l.as_slice()));
                    },
                }
            }
            // a tag of some kind
            if start + 1 == n {
                self.mark();
                let l: [u8; 22] = [
                    117,
                    110,
                    101,
                    120,
                    112,
                    101,
                    99,
                    116,
                    101,
                    100,
                    32,
                    101,
                    110,
                    100,
                    32,
                    111,
                    102,
                    32,
                    100,
                    97,
                    116,
                    97,
                ];
                // unexpected end of data
                return Err(self.syntax_err(l.as_slice()));
            }
            let b2 = self.doc[start + 1];
            if b2 == 63 {
                // processing instruction or declaration: skip to `?>`
                match self.find2(start + 2, 63, 62) {
                    Some(j) => {
                        proof {
                            assert(sp_next(doc0, start as int) == sp_next(doc0, j + 2));
                        }
                        self.advance(j + 2);
                        continue ;
                    },
                    None => {
                        self.mark();
                        let l: [u8; 35] = [117, 110, 116, 101, 114, 109, 105, 110, 97, 116, 101, 100, 32, 112, 114, 111, 99, 101, 115, 115, 105, 110, 103, 32, 105, 110, 115, 116, 114, 117, 99, 116, 105, 111, 110];
                        // unterminated processing instruction
                        return Err(self.syntax_err(l.as_slice()));
                    },
                }
            }
            if b2 == 33 {
                // comment, CDATA section or document type declaration
                if n - start > 3 && self.doc[start + 2] == 45 && self.doc[start + 3] == 45 {
                    match self.find3(start + 4, 45, 45, 62) {
                        Some(j) => {
                            proof {
                                assert(sp_next(doc0, start as int) == sp_next(doc0, j + 3));
                            }
                            self.advance(j + 3);
                            continue ;
                        },
                        None => {
                            self.mark();
                            let l: [u8; 20] = [
                                117,
                                110,
                                116,
                                101,
                                114,
                                109,
                                105,
                                110,
                                97,
                                116,
                                101,
                                100,
                                32,
                                99,
                                111,
                                109,
                                109,
                                101,
                                110,
                                116,
                            ];
                            // unterminated comment
                            return Err(self.syntax_err(l.as_slice()));
                        },
                    }
                }
                if n - start > 8 && self.doc[start + 2] == 91 && self.doc[start + 3] == 67
                    && self.doc[start + 4] == 68 && self.doc[start + 5] == 65 && self.doc[start + 6]
                    == 84 && self.doc[start + 7] == 65 && self.doc[start + 8] == 91 {
                    // CDATA: raw character data up to `]]>`
                    match self.find3(start + 9, 93, 93, 62) {
                        Some(j) => {
                            let raw = copy_range(&self.doc, start + 9, j);
                            proof {
                                assert(sp_next(doc0, start as int) == (ScanOut::Tok {
                                    t: TokView::Text(raw@),
                                    pend: None::<Seq<u8>>,
                                    end: j + 3,
                                }));
                            }
                            self.mark();
                            self.advance(j + 3);
                            self.cur = Token::Text { data: raw };
                            return Ok(());
                        },
                        None => {
                            self.mark();
                            let l: [u8; 18] = [
                                117,
                                110,
                                116,
                                101,
                                114,
                                109,
                                105,
                                110,
                                97,
                                116,
                                101,
                                100,
                                32,
                                67,
                                68,
                                65,
                                84,
                                65,
                            ];
                            // unterminated CDATA
                            return Err(self.syntax_err(l.as_slice()));
                        },
                    }
                }
                // document type declaration: skip to `>`
                match self.find_gt(start + 2) {
                    Some(j) => {
                        proof {
                            assert(sp_next(doc0, start as int) == sp_next(doc0, j + 1));
                        }
                        self.advance(j + 1);
                        continue ;
                    },
                    None => {
                        self.mark();
                        let l: [u8; 24] = [117, 110, 116, 101, 114, 109, 105, 110, 97, 116, 101, 100, 32, 100, 101, 99, 108, 97, 114, 97, 116, 105, 111, 110];
                        // unterminated declaration
                        return Err(self.syntax_err(l.as_slice()));
                    },
                }
            }
            if b2 == 47 {
                // closing tag
                let (ne, colon) = self.scan_name(start + 2);
                if ne == start + 2 {
                    self.mark();
                    let l: [u8; 14] = [101, 109, 112, 116, 121, 32, 116, 97, 103, 32, 110, 97, 109,
                        101];
                    // empty tag name
                    return Err(self.syntax_err(l.as_slice()));
                }
                if colon {
                    self.mark();
                    return Err(self.expected_err(ns_msg()));
                }
                let k = self.skip_ws(ne);
                if k == n || self.doc[k] != 62 {
                    self.mark();
                    return Err(self.expected_err(close_tag_msg(&copy_range(
                        &self.doc,
                        start + 2,
                        ne,
                    ))));
                }
                let name = copy_range(&self.doc, start + 2, ne);
                proof {
                    assert(sp_next(doc0, start as int) == (ScanOut::Tok {
                        t: TokView::End(name@),
                        pend: None::<Seq<u8>>,
                        end: k + 1,
                    }));
                }
                self.mark();
                self.advance(k + 1);
                self.cur = Token::End { name };
                return Ok(());
            }
            // opening tag
            let (ne, colon) = self.scan_name(start + 1);
            if ne == start + 1 {
                self.mark();
                let l: [u8; 14] = [101, 109, 112, 116, 121, 32, 116, 97, 103, 32, 110, 97, 109,
                    101];
                // empty tag name
                return Err(self.syntax_err(l.as_slice()));
            }
            if colon {
                self.mark();
                return Err(self.expected_err(ns_msg()));
            }
            let k = self.skip_ws(ne);
            if k < n && self.doc[k] == 62 {
                let name = copy_range(&self.doc, start + 1, ne);
                proof {
                    assert(sp_next(doc0, start as int) == (ScanOut::Tok {
                        t: TokView::Start(name@),
                        pend: None::<Seq<u8>>,
                        end: k + 1,
                    }));
                }
                self.mark();
                self.advance(k + 1);
                self.cur = Token::Start { name };
                return Ok(());
            }
            if k < n && n - k > 1 && self.doc[k] == 47 && self.doc[k + 1] == 62 {
                let name = copy_range(&self.doc, start + 1, ne);
                proof {
                    assert(sp_next(doc0, start as int) == (ScanOut::Tok {
                        t: TokView::Start(name@),
                        pend: Some(name@),
                        end: k + 2,
                    }));
                }
                self.mark();
                self.advance(k + 2);
                self.pend = Some(clone_bytes(name.as_slice()));
                self.cur = Token::Start { name };
                return Ok(());
            }
            // something besides `>` or `/>` follows the name: an attribute
            self.mark();
            return Err(self.expected_err(attr_msg(&copy_range(&self.doc, start + 1, ne))));
        }
    }
}

/// What boolean content stands for: only the literal `0` and `1` are
/// valid; every other text is invalid.
pub fn parse_boolean(text: &[u8]) -> (r: Option<bool>)
    ensures
        r == (if text@ == seq![48u8] {
            Some(false)
        } else if text@ == seq![49u8] {
            Some(true)
        } else {
            None::<bool>
        }),
{
    if text.len() == 1 && text[0] == 48 {
        proof {
            assert(text@ =~= seq![48u8]);
        }
        Some(false)
    } else if text.len() == 1 && text[0] == 49 {
        proof {
            assert(text@ =~= seq![49u8]);
        }
        Some(true)
    } else {
        proof {
            if text@ == seq![48u8] {
                assert(text@.len() == 1 && text@[0] == 48);
            }
            if text@ == seq![49u8] {
                assert(text@.len() == 1 && text@[0] == 49);
            }
        }
        None
    }
}

/// `tag without namespace or prefix`
fn ns_msg() -> Vec<u8> {
    let l: [u8; 31] = [116, 97, 103, 32, 119, 105, 116, 104, 111, 117, 116, 32, 110, 97, 109, 101, 115, 112, 97, 99, 101, 32, 111, 114, 32, 112, 114, 101, 102, 105, 120];
    clone_bytes(l.as_slice())
}

/// `tag <name> without attributes`
fn attr_msg(name: &Vec<u8>) -> Vec<u8> {
    let l1: [u8; 5] = [116, 97, 103, 32, 60];
    let l2: [u8; 20] = [
        62,
        32,
        119,
        105,
        116,
        104,
        111,
        117,
        116,
        32,
        97,
        116,
        116,
        114,
        105,
        98,
        117,
        116,
        101,
        115,
    ];
    let mut v = clone_bytes(l1.as_slice());
    crate::encode::push_slice(&mut v, name.as_slice());
    crate::encode::push_slice(&mut v, l2.as_slice());
    v
}

/// `</name>`
fn close_tag_msg(name: &Vec<u8>) -> Vec<u8> {
    let mut v: Vec<u8> = Vec::new();
    v.push(60);
    v.push(47);
    crate::encode::push_slice(&mut v, name.as_slice());
    v.push(62);
    v
}

/// `<name>`
fn open_tag_msg(name: &[u8]) -> Vec<u8> {
    let mut v: Vec<u8> = Vec::new();
    v.push(60);
    crate::encode::push_slice(&mut v, name);
    v.push(62);
    v
}

} // verus!

verus! {

/// The bytes of `int`, the alternative opening tag for a 32-bit integer.
pub open spec fn tg_int() -> Seq<u8> {
    seq![105u8, 110u8, 116u8]
}

/// The bytes of `methodResponse`.
pub open spec fn tg_method_response() -> Seq<u8> {
    seq![109u8, 101u8, 116u8, 104u8, 111u8, 100u8, 82u8, 101u8, 115u8, 112u8, 111u8, 110u8, 115u8, 101u8]
}

/// The bytes of `fault`.
pub open spec fn tg_fault() -> Seq<u8> {
    seq![102u8, 97u8, 117u8, 108u8, 116u8]
}

/// The bytes of `params`.
pub open spec fn tg_params() -> Seq<u8> {
    seq![112u8, 97u8, 114u8, 97u8, 109u8, 115u8]
}

/// The bytes of `param`.
pub open spec fn tg_param() -> Seq<u8> {
    seq![112u8, 97u8, 114u8, 97u8, 109u8]
}

/// What one `<value>` element starting at token `i` stands for: the
/// position after its closing tag and the value, or `None` where the
/// tokens do not form a value.
pub open spec fn tok_value(ts: Seq<TokView>, i: int) -> Option<(int, ValueView)>
    decreases ts.len() - i, 0int,
{
    if 0 <= i < ts.len() && ts[i] == TokView::Start(crate::encode::tn_value()) {
        if i + 1 < ts.len() && ts[i + 1] == TokView::End(crate::encode::tn_value()) {
            Some((i + 2, ValueView::String(Seq::empty())))
        } else {
            match tok_inner(ts, i + 1) {
                Some((j, v)) => if i + 1 < j && j < ts.len() && ts[j] == TokView::End(
                    crate::encode::tn_value(),
                ) {
                    Some((j + 1, v))
                } else {
                    None
                },
                None => None,
            }
        }
    } else {
        None
    }
}

/// What the inside of a `<value>` element stands for: raw character data
/// is an implicit string; otherwise one typed element.
pub open spec fn tok_inner(ts: Seq<TokView>, i: int) -> Option<(int, ValueView)>
    decreases ts.len() - i, 0int,
{
    if !(0 <= i < ts.len()) {
        None
    } else {
        match ts[i] {
            TokView::Text(d) => Some((i + 1, ValueView::String(d))),
            TokView::Start(name) => {
                if name == crate::encode::tn_struct() {
                    match tok_members(ts, i + 1, Seq::empty()) {
                        Some((j, m)) => Some((j, ValueView::Struct(m))),
                        None => None,
                    }
                } else if name == crate::encode::tn_array() {
                    if i + 1 < ts.len() && ts[i + 1] == TokView::Start(crate::encode::tn_data()) {
                        match tok_elems(ts, i + 2, Seq::empty()) {
                            Some((j, es)) => if j < ts.len() && ts[j] == TokView::End(
                                crate::encode::tn_array(),
                            ) {
                                Some((j + 1, ValueView::Array(es)))
                            } else {
                                None
                            },
                            None => None,
                        }
                    } else {
                        None
                    }
                } else if name == crate::encode::tn_nil() {
                    if i + 1 < ts.len() && ts[i + 1] == TokView::End(crate::encode::tn_nil()) {
                        Some((i + 2, ValueView::Nil))
                    } else {
                        None
                    }
                } else if name == crate::encode::tn_string() {
                    if i + 1 < ts.len() && ts[i + 1] == TokView::End(crate::encode::tn_string()) {
                        Some((i + 2, ValueView::String(Seq::empty())))
                    } else if i + 2 < ts.len() && (ts[i + 1] matches TokView::Text(_)) && ts[i + 2]
                        == TokView::End(crate::encode::tn_string()) {
                        match ts[i + 1] {
                            TokView::Text(d) => Some((i + 3, ValueView::String(d))),
                            _ => None,
                        }
                    } else {
                        None
                    }
                } else if name == crate::encode::tn_base64() {
                    if i + 1 < ts.len() && ts[i + 1] == TokView::End(crate::encode::tn_base64()) {
                        Some((i + 2, ValueView::Base64(Seq::empty())))
                    } else if i + 2 < ts.len() && (ts[i + 1] matches TokView::Text(_)) && ts[i + 2]
                        == TokView::End(crate::encode::tn_base64()) {
                        match ts[i + 1] {
                            TokView::Text(d) => match crate::b64::b64_text_decode(d) {
                                Some(b) => Some((i + 3, ValueView::Base64(b))),
                                None => None,
                            },
                            _ => None,
                        }
                    } else {
                        None
                    }
                } else if name == crate::encode::tn_i4() || name == tg_int() {
                    tok_int(ts, i, name, false)
                } else if name == crate::encode::tn_i8() {
                    tok_int(ts, i, name, true)
                } else if name == crate::encode::tn_boolean() {
                    match tok_text_elem(ts, i, name) {
                        Some(d) => if d == seq![48u8] {
                            Some((i + 3, ValueView::Bool(false)))
                        } else if d == seq![49u8] {
                            Some((i + 3, ValueView::Bool(true)))
                        } else {
                            None
                        },
                        None => None,
                    }
                } else if name == crate::encode::tn_double() {
                    match tok_text_elem(ts, i, name) {
                        Some(d) => if crate::dbl::is_f64_text(d) {
                            Some((i + 3, ValueView::Double(d)))
                        } else {
                            None
                        },
                        None => None,
                    }
                } else if name == crate::encode::tn_datetime() {
                    match tok_text_elem(ts, i, name) {
                        Some(d) => match crate::datetime::datetime_text(d) {
                            Some(dt) => Some((i + 3, ValueView::DateTime(dt))),
                            None => None,
                        },
                        None => None,
                    }
                } else {
                    None
                }
            },
            _ => None,
        }
    }
}

/// The character data of a three-token element `<name>text</name>` at
/// `i`, where the typed content is validated before the closing tag is
/// looked at. `None` where the shape is wrong.
pub open spec fn tok_text_elem(ts: Seq<TokView>, i: int, name: Seq<u8>) -> Option<Seq<u8>> {
    if 0 <= i && i + 2 < ts.len() && (ts[i + 1] matches TokView::Text(_)) && ts[i + 2]
        == TokView::End(name) {
        match ts[i + 1] {
            TokView::Text(d) => Some(d),
            _ => None,
        }
    } else {
        None
    }
}

/// An integer element: the validated text must be an optionally signed
/// run of digits fitting the announced width, and the closing tag must
/// repeat the opening name.
pub open spec fn tok_int(ts: Seq<TokView>, i: int, name: Seq<u8>, wide: bool) -> Option<
    (int, ValueView),
> {
    if 0 <= i && i + 1 < ts.len() && (ts[i + 1] matches TokView::Text(_)) {
        match ts[i + 1] {
            TokView::Text(d) => {
                match crate::numtext::int_text_val(d) {
                    Some(v) => if wide {
                        if i64::MIN <= v <= i64::MAX {
                            if i + 2 < ts.len() && ts[i + 2] == TokView::End(name) {
                                Some((i + 3, ValueView::Int64(v)))
                            } else {
                                None
                            }
                        } else {
                            None
                        }
                    } else {
                        if i32::MIN <= v <= i32::MAX {
                            if i + 2 < ts.len() && ts[i + 2] == TokView::End(name) {
                                Some((i + 3, ValueView::Int(v)))
                            } else {
                                None
                            }
                        } else {
                            None
                        }
                    },
                    None => None,
                }
            },
            _ => None,
        }
    } else {
        None
    }
}

/// The members of a `<struct>` from token `i` on, onto the accumulated
/// key-sorted list: each `<member>` holds a `<name>` with raw character
/// data and a value; a repeated key overwrites the earlier member.
pub open spec fn tok_members(
    ts: Seq<TokView>,
    i: int,
    acc: Seq<(Seq<u8>, ValueView)>,
) -> Option<(int, Seq<(Seq<u8>, ValueView)>)>
    decreases ts.len() - i, 0int,
{
    if !(0 <= i < ts.len()) {
        None
    } else if ts[i] == TokView::End(crate::encode::tn_struct()) {
        Some((i + 1, acc))
    } else if ts[i] == TokView::Start(crate::encode::tn_member()) {
        if i + 2 < ts.len() && ts[i + 1] == TokView::Start(crate::encode::tn_name()) && (ts[i + 2]
            matches TokView::Text(_)) && i + 3 < ts.len() && ts[i + 3] == TokView::End(
            crate::encode::tn_name(),
        ) {
            match ts[i + 2] {
                TokView::Text(k) => match tok_value(ts, i + 4) {
                    Some((j, v)) => if i + 4 < j && j < ts.len() && ts[j] == TokView::End(
                        crate::encode::tn_member(),
                    ) {
                        tok_members(ts, j + 1, crate::value::spec_struct_set(acc, k, v))
                    } else {
                        None
                    },
                    None => None,
                },
                _ => None,
            }
        } else {
            None
        }
    } else {
        None
    }
}

/// The elements of an `<array>`'s `<data>` from token `i` on, in order.
pub open spec fn tok_elems(ts: Seq<TokView>, i: int, acc: Seq<ValueView>) -> Option<
    (int, Seq<ValueView>),
>
    decreases ts.len() - i, 1int,
{
    if !(0 <= i < ts.len()) {
        None
    } else if ts[i] == TokView::End(crate::encode::tn_data()) {
        Some((i + 1, acc))
    } else {
        match tok_value(ts, i) {
            Some((j, v)) => if i < j <= ts.len() {
                tok_elems(ts, j, acc.push(v))
            } else {
                None
            },
            None => None,
        }
    }
}

/// What a `<methodResponse>` token stream stands for: a `<fault>` holding
/// a well-shaped fault struct, or `<params>` with exactly one `<param>`
/// value. Tokens after the one parsed construct are not consumed.
pub open spec fn tok_response(ts: Seq<TokView>) -> Option<Result<ValueView, FaultView>> {
    if ts.len() > 1 && ts[0] == TokView::Start(tg_method_response()) {
        if ts[1] == TokView::Start(tg_fault()) {
            match tok_value(ts, 2) {
                Some((j, v)) => match crate::fault::fault_of_value(v) {
                    Some(f) => Some(Err(f)),
                    None => None,
                },
                None => None,
            }
        } else if ts[1] == TokView::Start(tg_params()) {
            if ts.len() > 2 && ts[2] == TokView::Start(tg_param()) {
                match tok_value(ts, 3) {
                    Some((j, v)) => if j < ts.len() && ts[j] == TokView::End(tg_param()) {
                        Some(Ok(v))
                    } else {
                        None
                    },
                    None => None,
                }
            } else {
                None
            }
        } else {
            None
        }
    } else {
        None
    }
}

} // verus!

verus! {

impl Scanner {
    /// A copy of the current token.
    fn cur_clone(&self) -> (t: Token)
        ensures
            t@ == self.cur@,
    {
        match &self.cur {
            Token::Start { name } => Token::Start { name: clone_bytes(name.as_slice()) },
            Token::End { name } => Token::End { name: clone_bytes(name.as_slice()) },
            Token::Text { data } => Token::Text { data: clone_bytes(data.as_slice()) },
            Token::Eof => Token::Eof,
        }
    }
}

/// The decoder: the scanned tokens of one document and a cursor over them.
pub struct Parser {
    toks: Vec<Token>,
    /// Where each token starts, for error messages.
    rows: Vec<usize>,
    cols: Vec<usize>,
    /// The position of the end of the document.
    end_row: usize,
    end_col: usize,
    idx: usize,
}

/// The views of a token list.
pub closed spec fn toks_view(toks: Seq<Token>) -> Seq<TokView> {
    Seq::new(
        toks.len(),
        |i: int|
            if 0 <= i < toks.len() {
                toks[i]@
            } else {
                TokView::Eof
            },
    )
}

/// The tokens a parser decodes.
pub closed spec fn ptoks(p: Parser) -> Seq<TokView> {
    toks_view(p.toks@)
}

/// The cursor: how many tokens are consumed.
pub closed spec fn pidx(p: Parser) -> int {
    p.idx as int
}

/// The token under the cursor, or `Eof` past the end.
pub open spec fn pcur(p: Parser) -> TokView {
    if pidx(p) < ptoks(p).len() {
        ptoks(p)[pidx(p)]
    } else {
        TokView::Eof
    }
}

/// The row where the token under the cursor starts.
pub closed spec fn prow(p: Parser) -> int {
    if p.idx < p.rows@.len() {
        p.rows@[p.idx as int] as int
    } else {
        p.end_row as int
    }
}

/// The column where the token under the cursor starts.
pub closed spec fn pcol(p: Parser) -> int {
    if p.idx < p.cols@.len() {
        p.cols@[p.idx as int] as int
    } else {
        p.end_col as int
    }
}

pub closed spec fn parser_inv(p: Parser) -> bool {
    p.idx <= p.toks@.len() && p.rows@.len() == p.toks@.len() && p.cols@.len() == p.toks@.len()
}

impl Parser {
    /// Describes the token under the cursor for an error message.
    fn found_here(&self) -> (r: Vec<u8>)
        requires
            parser_inv(*self),
        ensures
            r@ == found_text(pcur(*self)),
    {
        if self.idx == self.toks.len() {
            let l: [u8; 11] = [101, 110, 100, 32, 111, 102, 32, 100, 97, 116, 97];
            let d = clone_bytes(l.as_slice());
            proof {
                assert(d@ =~= found_text(pcur(*self)));
            }
            return d;
        }
        match &self.toks[self.idx] {
            Token::Start { name } => {
                let mut d: Vec<u8> = Vec::new();
                d.push(60);
                crate::encode::push_slice(&mut d, name.as_slice());
                d.push(62);
                proof {
                    assert(d@ =~= found_text(pcur(*self)));
                }
                d
            },
            Token::End { name } => {
                let mut d: Vec<u8> = Vec::new();
                d.push(60);
                d.push(47);
                crate::encode::push_slice(&mut d, name.as_slice());
                d.push(62);
                proof {
                    assert(d@ =~= found_text(pcur(*self)));
                }
                d
            },
            Token::Text { data } => {
                let mut d: Vec<u8> = Vec::new();
                d.push(34);
                crate::encode::push_slice(&mut d, data.as_slice());
                d.push(34);
                proof {
                    assert(d@ =~= found_text(pcur(*self)));
                }
                d
            },
            Token::Eof => {
                let l: [u8; 11] = [101, 110, 100, 32, 111, 102, 32, 100, 97, 116, 97];
                let d = clone_bytes(l.as_slice());
                proof {
                    assert(self.toks@[self.idx as int]@ is Eof);
                    assert(d@ =~= found_text(pcur(*self)));
                }
                d
            },
        }
    }

    /// The position of the token under the cursor.
    fn here(&self) -> (r: (usize, usize))
        requires
            parser_inv(*self),
        ensures
            r.0 as int == prow(*self),
            r.1 as int == pcol(*self),
    {
        if self.idx < self.rows.len() {
            (self.rows[self.idx], self.cols[self.idx])
        } else {
            (self.end_row, self.end_col)
        }
    }

    /// Builds an error naming the expected construct, the token found in
    /// its place, and its position.
    fn expected_err(&self, expected: Vec<u8>) -> (r: ParseError)
        requires
            parser_inv(*self),
        ensures
            r@ == (crate::error::ParseErrorView::Unexpected {
                expected: expected@,
                found: Some(found_text(pcur(*self))),
                row: prow(*self),
                col: pcol(*self),
            }),
    {
        let (row, col) = self.here();
        ParseError::unexpected(expected, Some(self.found_here()), row, col)
    }
}

} // verus!

verus! {

impl Parser {
    /// Consumes one `<value>...</value>` element and yields the value it
    /// stands for: exactly what `tok_value` says of the tokens at the
    /// cursor. An immediately closed `<value>` is the empty string.
    pub fn parse_value(&mut self) -> (r: Result<Value, ParseError>)
        requires
            parser_inv(*old(self)),
        ensures
            parser_inv(*final (self)),
            ptoks(*final (self)) == ptoks(*old(self)),
            pidx(*old(self)) <= pidx(*final (self)) <= ptoks(*old(self)).len(),
            r matches Ok(v) ==> tok_value(ptoks(*old(self)), pidx(*old(self))) == Some(
                (pidx(*final (self)), v@),
            ) && wf_view(v@) && pidx(*final (self)) > pidx(*old(self)),
            r is Err ==> tok_value(ptoks(*old(self)), pidx(*old(self))) is None,
        decreases ptoks(*old(self)).len() - pidx(*old(self)), 3int,
    {
        let ghost ts = ptoks(*self);
        let ghost i0 = self.idx as int;
        let vt: [u8; 5] = [118, 97, 108, 117, 101];
        proof {
            assert(vt@ =~= crate::encode::tn_value());
        }
        let n = self.toks.len();
        if self.idx == n {
            proof {
                assert(tok_value(ts, i0) is None);
            }
            return Err(self.expected_err(open_tag_msg(vt.as_slice())));
        }
        let opens = match &self.toks[self.idx] {
            Token::Start { name } => bytes_eq(name.as_slice(), vt.as_slice()),
            _ => false,
        };
        if !opens {
            proof {
                assert(ts[i0] == self.toks@[i0]@);
                assert(tok_value(ts, i0) is None);
            }
            return Err(self.expected_err(open_tag_msg(vt.as_slice())));
        }
        proof {
            assert(ts[i0] == TokView::Start(crate::encode::tn_value()));
        }
        self.idx = self.idx + 1;
        let closed = self.idx < n && match &self.toks[self.idx] {
            Token::End { name } => bytes_eq(name.as_slice(), vt.as_slice()),
            _ => false,
        };
        if closed {
            self.idx = self.idx + 1;
            let r = Value::String(Vec::new());
            proof {
                assert(ts[i0 + 1] == TokView::End(crate::encode::tn_value()));
                assert(r@ == ValueView::String(Seq::<u8>::empty()));
                assert(tok_value(ts, i0) == Some((i0 + 2, r@)));
                assert(wf_view(r@));
            }
            return Ok(r);
        }
        proof {
            if i0 + 1 < ts.len() {
                assert(ts[i0 + 1] == self.toks@[i0 + 1]@);
            }
            assert(!(i0 + 1 < ts.len() && ts[i0 + 1] == TokView::End(crate::encode::tn_value())));
        }
        let v = match self.parse_value_inner() {
            Ok(v) => v,
            Err(e) => {
                proof {
                    assert(tok_value(ts, i0) is None);
                }
                return Err(e);
            },
        };
        let ghost j = self.idx as int;
        let closes = self.idx < n && match &self.toks[self.idx] {
            Token::End { name } => bytes_eq(name.as_slice(), vt.as_slice()),
            _ => false,
        };
        if !closes {
            proof {
                if j < ts.len() {
                    assert(ts[j] == self.toks@[j]@);
                }
                assert(tok_value(ts, i0) is None);
            }
            let mut m: Vec<u8> = Vec::new();
            m.push(60);
            m.push(47);
            crate::encode::push_slice(&mut m, vt.as_slice());
            m.push(62);
            return Err(self.expected_err(m));
        }
        self.idx = self.idx + 1;
        proof {
            assert(ts[j] == TokView::End(crate::encode::tn_value()));
            assert(tok_value(ts, i0) == Some((j + 1, v@)));
        }
        Ok(v)
    }

    /// Consumes the inside of a `<value>` element: raw character data as
    /// an implicit string, or one typed element, as `tok_inner` says.
    fn parse_value_inner(&mut self) -> (r: Result<Value, ParseError>)
        requires
            parser_inv(*old(self)),
        ensures
            parser_inv(*final (self)),
            ptoks(*final (self)) == ptoks(*old(self)),
            pidx(*old(self)) <= pidx(*final (self)) <= ptoks(*old(self)).len(),
            r matches Ok(v) ==> tok_inner(ptoks(*old(self)), pidx(*old(self))) == Some(
                (pidx(*final (self)), v@),
            ) && wf_view(v@) && pidx(*final (self)) > pidx(*old(self)),
            r is Err ==> tok_inner(ptoks(*old(self)), pidx(*old(self))) is None,
        decreases ptoks(*old(self)).len() - pidx(*old(self)), 2int,
    {
        let ghost ts = ptoks(*self);
        let ghost i0 = self.idx as int;
        let n = self.toks.len();
        if self.idx == n {
            proof {
                assert(tok_inner(ts, i0) is None);
            }
            let l: [u8; 22] = [116, 121, 112, 101, 32, 116, 97, 103, 32, 111, 114, 32, 99, 104, 97, 114, 97, 99, 116, 101, 114, 115];
            // type tag or characters
            return Err(self.expected_err(clone_bytes(l.as_slice())));
        }
        let is_text = matches!(&self.toks[self.idx], Token::Text { .. });
        if is_text {
            let d = match &self.toks[self.idx] {
                Token::Text { data } => clone_bytes(data.as_slice()),
                _ => Vec::new(),
            };
            self.idx = self.idx + 1;
            let r = Value::String(d);
            proof {
                assert(ts[i0] == self.toks@[i0]@);
                assert(tok_inner(ts, i0) == Some((i0 + 1, r@)));
                assert(wf_view(r@));
            }
            return Ok(r);
        }
        let name: Vec<u8> = match &self.toks[self.idx] {
            Token::Start { name } => clone_bytes(name.as_slice()),
            _ => {
                proof {
                    assert(ts[i0] == self.toks@[i0]@);
                    assert(tok_inner(ts, i0) is None);
                }
                let l: [u8; 22] = [116, 121, 112, 101, 32, 116, 97, 103, 32, 111, 114, 32, 99, 104, 97, 114, 97, 99, 116, 101, 114, 115];
                // type tag or characters
                return Err(self.expected_err(clone_bytes(l.as_slice())));
            },
        };
        proof {
            assert(ts[i0] == TokView::Start(name@));
        }
        let t_struct: [u8; 6] = [115, 116, 114, 117, 99, 116];
        let t_array: [u8; 5] = [97, 114, 114, 97, 121];
        let t_nil: [u8; 3] = [110, 105, 108];
        let t_string: [u8; 6] = [115, 116, 114, 105, 110, 103];
        let t_base64: [u8; 6] = [98, 97, 115, 101, 54, 52];
        let t_i4: [u8; 2] = [105, 52];
        let t_int: [u8; 3] = [105, 110, 116];
        let t_i8: [u8; 2] = [105, 56];
        let t_boolean: [u8; 7] = [98, 111, 111, 108, 101, 97, 110];
        let t_double: [u8; 6] = [100, 111, 117, 98, 108, 101];
        let t_datetime: [u8; 16] = [100, 97, 116, 101, 84, 105, 109, 101, 46, 105, 115, 111, 56, 54, 48, 49];
        proof {
            assert(t_struct@ =~= crate::encode::tn_struct());
            assert(t_array@ =~= crate::encode::tn_array());
            assert(t_nil@ =~= crate::encode::tn_nil());
            assert(t_string@ =~= crate::encode::tn_string());
            assert(t_base64@ =~= crate::encode::tn_base64());
            assert(t_i4@ =~= crate::encode::tn_i4());
            assert(t_int@ =~= tg_int());
            assert(t_i8@ =~= crate::encode::tn_i8());
            assert(t_boolean@ =~= crate::encode::tn_boolean());
            assert(t_double@ =~= crate::encode::tn_double());
            assert(t_datetime@ =~= crate::encode::tn_datetime());
        }
        if bytes_eq(name.as_slice(), t_struct.as_slice()) {
            self.parse_struct()
        } else if bytes_eq(name.as_slice(), t_array.as_slice()) {
            self.parse_array()
        } else if bytes_eq(name.as_slice(), t_nil.as_slice()) {
            self.idx = self.idx + 1;
            let closes = self.idx < n && match &self.toks[self.idx] {
                Token::End { name } => bytes_eq(name.as_slice(), t_nil.as_slice()),
                _ => false,
            };
            if !closes {
                proof {
                    if i0 + 1 < ts.len() {
                        assert(ts[i0 + 1] == self.toks@[i0 + 1]@);
                    }
                    assert(tok_inner(ts, i0) is None);
                }
                let mut m: Vec<u8> = Vec::new();
                m.push(60);
                m.push(47);
                crate::encode::push_slice(&mut m, t_nil.as_slice());
                m.push(62);
                return Err(self.expected_err(m));
            }
            self.idx = self.idx + 1;
            let r = Value::Nil;
            proof {
                assert(ts[i0 + 1] == TokView::End(crate::encode::tn_nil()));
                assert(tok_inner(ts, i0) == Some((i0 + 2, r@)));
                assert(wf_view(r@));
            }
            Ok(r)
        } else if bytes_eq(name.as_slice(), t_string.as_slice()) {
            self.parse_text_bodied(&name, 0)
        } else if bytes_eq(name.as_slice(), t_base64.as_slice()) {
            self.parse_text_bodied(&name, 1)
        } else if bytes_eq(name.as_slice(), t_i4.as_slice()) || bytes_eq(
            name.as_slice(),
            t_int.as_slice(),
        ) {
            self.parse_typed_leaf(&name, 0)
        } else if bytes_eq(name.as_slice(), t_i8.as_slice()) {
            self.parse_typed_leaf(&name, 1)
        } else if bytes_eq(name.as_slice(), t_boolean.as_slice()) {
            self.parse_typed_leaf(&name, 2)
        } else if bytes_eq(name.as_slice(), t_double.as_slice()) {
            self.parse_typed_leaf(&name, 3)
        } else if bytes_eq(name.as_slice(), t_datetime.as_slice()) {
            self.parse_typed_leaf(&name, 4)
        } else {
            proof {
                assert(tok_inner(ts, i0) is None);
            }
            let l: [u8; 14] = [118, 97, 108, 105, 100, 32, 116, 121, 112, 101, 32, 116, 97, 103];
            // valid type tag
            Err(self.expected_err(clone_bytes(l.as_slice())))
        }
    }
}

} // verus!

verus! {

/// The tag names of equal length that the grammar tells apart.
proof fn lemma_tag_names_distinct()
    ensures
        crate::encode::tn_struct() != crate::encode::tn_string(),
        crate::encode::tn_struct() != crate::encode::tn_double(),
        crate::encode::tn_struct() != crate::encode::tn_base64(),
        crate::encode::tn_struct() != crate::encode::tn_member(),
        crate::encode::tn_string() != crate::encode::tn_double(),
        crate::encode::tn_string() != crate::encode::tn_base64(),
        crate::encode::tn_string() != crate::encode::tn_member(),
        crate::encode::tn_double() != crate::encode::tn_base64(),
        crate::encode::tn_double() != crate::encode::tn_member(),
        crate::encode::tn_base64() != crate::encode::tn_member(),
        crate::encode::tn_i4() != crate::encode::tn_i8(),
        tg_int() != crate::encode::tn_nil(),
        crate::encode::tn_array() != crate::encode::tn_value(),
        tg_param() != crate::encode::tn_value(),
        tg_param() != crate::encode::tn_array(),
        tg_params() != crate::encode::tn_struct(),
        tg_params() != crate::encode::tn_string(),
        tg_params() != crate::encode::tn_double(),
        tg_params() != crate::encode::tn_base64(),
        tg_fault() != crate::encode::tn_value(),
        tg_fault() != crate::encode::tn_array(),
        tg_fault() != tg_param(),
{
    assert(crate::encode::tn_struct()[3] != crate::encode::tn_string()[3]);
    assert(crate::encode::tn_struct()[0] != crate::encode::tn_double()[0]);
    assert(crate::encode::tn_struct()[0] != crate::encode::tn_base64()[0]);
    assert(crate::encode::tn_struct()[0] != crate::encode::tn_member()[0]);
    assert(crate::encode::tn_string()[0] != crate::encode::tn_double()[0]);
    assert(crate::encode::tn_string()[0] != crate::encode::tn_base64()[0]);
    assert(crate::encode::tn_string()[0] != crate::encode::tn_member()[0]);
    assert(crate::encode::tn_double()[0] != crate::encode::tn_base64()[0]);
    assert(crate::encode::tn_double()[0] != crate::encode::tn_member()[0]);
    assert(crate::encode::tn_base64()[0] != crate::encode::tn_member()[0]);
    assert(crate::encode::tn_i4()[1] != crate::encode::tn_i8()[1]);
    assert(tg_int()[0] != crate::encode::tn_nil()[0]);
    assert(crate::encode::tn_array()[0] != crate::encode::tn_value()[0]);
    assert(tg_param()[0] != crate::encode::tn_value()[0]);
    assert(tg_param()[0] != crate::encode::tn_array()[0]);
    assert(tg_params()[0] != crate::encode::tn_struct()[0]);
    assert(tg_params()[0] != crate::encode::tn_string()[0]);
    assert(tg_params()[0] != crate::encode::tn_double()[0]);
    assert(tg_params()[0] != crate::encode::tn_base64()[0]);
    assert(tg_fault()[0] != crate::encode::tn_value()[0]);
    assert(tg_fault()[0] != crate::encode::tn_array()[0]);
    assert(tg_fault()[0] != tg_param()[0]);
}

impl Parser {
    /// A `<string>` or `<base64>` element (`which` 0 or 1): character
    /// data, or an immediately closed element standing for empty content.
    #[verifier::rlimit(100)]
    #[verifier::spinoff_prover]
    fn parse_text_bodied(&mut self, name: &Vec<u8>, which: u8) -> (r: Result<Value, ParseError>)
        requires
            parser_inv(*old(self)),
            pidx(*old(self)) < ptoks(*old(self)).len(),
            ptoks(*old(self))[pidx(*old(self))] == TokView::Start(name@),
            which == 0 ==> name@ == crate::encode::tn_string(),
            which == 1 ==> name@ == crate::encode::tn_base64(),
            which <= 1,
        ensures
            parser_inv(*final (self)),
            ptoks(*final (self)) == ptoks(*old(self)),
            pidx(*old(self)) <= pidx(*final (self)) <= ptoks(*old(self)).len(),
            r matches Ok(v) ==> tok_inner(ptoks(*old(self)), pidx(*old(self))) == Some(
                (pidx(*final (self)), v@),
            ) && wf_view(v@) && pidx(*final (self)) > pidx(*old(self)),
            r is Err ==> tok_inner(ptoks(*old(self)), pidx(*old(self))) is None,
    {
        let ghost ts = ptoks(*self);
        let ghost i0 = self.idx as int;
        proof {
            lemma_tag_names_distinct();
        }
        let n = self.toks.len();
        self.idx = self.idx + 1;
        let closed = self.idx < n && match &self.toks[self.idx] {
            Token::End { name: en } => bytes_eq(en.as_slice(), name.as_slice()),
            _ => false,
        };
        if closed {
            self.idx = self.idx + 1;
            let r = if which == 0 {
                Value::String(Vec::new())
            } else {
                Value::Base64(Vec::new())
            };
            proof {
                assert(ts[i0 + 1] == TokView::End(name@));
                assert(tok_inner(ts, i0) == Some((i0 + 2, r@)));
                assert(wf_view(r@));
            }
            return Ok(r);
        }
        proof {
            if i0 + 1 < ts.len() {
                assert(ts[i0 + 1] == self.toks@[i0 + 1]@);
            }
        }
        let is_text = self.idx < n && matches!(&self.toks[self.idx], Token::Text { .. });
        if !is_text {
            proof {
                assert(tok_inner(ts, i0) is None);
            }
            let m = if which == 0 {
                let l: [u8; 23] = [99, 104, 97, 114, 97, 99, 116, 101, 114, 115, 32, 111, 114, 32, 60, 47, 115, 116, 114, 105, 110, 103, 62];
                // characters or </string>
                clone_bytes(l.as_slice())
            } else {
                let l: [u8; 23] = [99, 104, 97, 114, 97, 99, 116, 101, 114, 115, 32, 111, 114, 32, 60, 47, 98, 97, 115, 101, 54, 52, 62];
                // characters or </base64>
                clone_bytes(l.as_slice())
            };
            return Err(self.expected_err(m));
        }
        let (trow, tcol) = self.here();
        let d = match &self.toks[self.idx] {
            Token::Text { data } => clone_bytes(data.as_slice()),
            _ => Vec::new(),
        };
        proof {
            assert(ts[i0 + 1] == TokView::Text(d@));
        }
        self.idx = self.idx + 1;
        let closes = self.idx < n && match &self.toks[self.idx] {
            Token::End { name: en } => bytes_eq(en.as_slice(), name.as_slice()),
            _ => false,
        };
        if !closes {
            proof {
                if i0 + 2 < ts.len() {
                    assert(ts[i0 + 2] == self.toks@[i0 + 2]@);
                }
                assert(tok_inner(ts, i0) is None);
            }
            let mut m: Vec<u8> = Vec::new();
            m.push(60);
            m.push(47);
            crate::encode::push_slice(&mut m, name.as_slice());
            m.push(62);
            return Err(self.expected_err(m));
        }
        self.idx = self.idx + 1;
        proof {
            assert(ts[i0 + 2] == TokView::End(name@));
        }
        if which == 0 {
            let r = Value::String(d);
            proof {
                assert(tok_inner(ts, i0) == Some((i0 + 3, r@)));
                assert(wf_view(r@));
            }
            Ok(r)
        } else {
            match crate::b64::decode_base64_text(d.as_slice()) {
                Some(b) => {
                    let r = Value::Base64(b);
                    proof {
                        assert(tok_inner(ts, i0) == Some((i0 + 3, r@)));
                        assert(wf_view(r@));
                    }
                    Ok(r)
                },
                None => {
                    proof {
                        assert(tok_inner(ts, i0) is None);
                    }
                    let ty: [u8; 6] = [98, 97, 115, 101, 54, 52];
                    Err(ParseError::invalid_value(clone_bytes(ty.as_slice()), d, trow, tcol))
                },
            }
        }
    }

    /// A typed leaf element: `<i4>`/`<int>` (`which` 0), `<i8>` (1),
    /// `<boolean>` (2), `<double>` (3) or `<dateTime.iso8601>` (4). The
    /// character data is validated before the closing tag is looked at,
    /// and invalid content is an invalid-value error naming the type and
    /// the text.
    #[verifier::rlimit(100)]
    #[verifier::spinoff_prover]
    fn parse_typed_leaf(&mut self, name: &Vec<u8>, which: u8) -> (r: Result<Value, ParseError>)
        requires
            parser_inv(*old(self)),
            pidx(*old(self)) < ptoks(*old(self)).len(),
            ptoks(*old(self))[pidx(*old(self))] == TokView::Start(name@),
            which == 0 ==> name@ == crate::encode::tn_i4() || name@ == tg_int(),
            which == 1 ==> name@ == crate::encode::tn_i8(),
            which == 2 ==> name@ == crate::encode::tn_boolean(),
            which == 3 ==> name@ == crate::encode::tn_double(),
            which == 4 ==> name@ == crate::encode::tn_datetime(),
            which <= 4,
        ensures
            parser_inv(*final (self)),
            ptoks(*final (self)) == ptoks(*old(self)),
            pidx(*old(self)) <= pidx(*final (self)) <= ptoks(*old(self)).len(),
            r matches Ok(v) ==> tok_inner(ptoks(*old(self)), pidx(*old(self))) == Some(
                (pidx(*final (self)), v@),
            ) && wf_view(v@) && pidx(*final (self)) > pidx(*old(self)),
            r is Err ==> tok_inner(ptoks(*old(self)), pidx(*old(self))) is None,
    {
        let ghost ts = ptoks(*self);
        let ghost i0 = self.idx as int;
        proof {
            lemma_tag_names_distinct();
        }
        let n = self.toks.len();
        self.idx = self.idx + 1;
        let is_text = self.idx < n && matches!(&self.toks[self.idx], Token::Text { .. });
        if !is_text {
            proof {
                if i0 + 1 < ts.len() {
                    assert(ts[i0 + 1] == self.toks@[i0 + 1]@);
                }
                assert(tok_inner(ts, i0) is None);
            }
            let l: [u8; 10] = [99, 104, 97, 114, 97, 99, 116, 101, 114, 115];
            // characters
            return Err(self.expected_err(clone_bytes(l.as_slice())));
        }
        let (trow, tcol) = self.here();
        let d = match &self.toks[self.idx] {
            Token::Text { data } => clone_bytes(data.as_slice()),
            _ => Vec::new(),
        };
        proof {
            assert(ts[i0 + 1] == TokView::Text(d@));
        }
        // validate the content before anything else is consumed
        let val: Value;
        if which == 0 {
            match crate::numtext::parse_i32(d.as_slice()) {
                Some(v) => {
                    val = Value::Int(v);
                },
                None => {
                    proof {
                        assert(tok_inner(ts, i0) is None);
                    }
                    let ty: [u8; 7] = [105, 110, 116, 101, 103, 101, 114];
                    return Err(ParseError::invalid_value(clone_bytes(ty.as_slice()), d, trow, tcol));
                },
            }
        } else if which == 1 {
            match crate::numtext::parse_i64(d.as_slice()) {
                Some(v) => {
                    val = Value::Int64(v);
                },
                None => {
                    proof {
                        assert(tok_inner(ts, i0) is None);
                    }
                    let ty: [u8; 2] = [105, 56];
                    return Err(ParseError::invalid_value(clone_bytes(ty.as_slice()), d, trow, tcol));
                },
            }
        } else if which == 2 {
            match parse_boolean(d.as_slice()) {
                Some(b) => {
                    val = Value::Bool(b);
                },
                None => {
                    proof {
                        assert(tok_inner(ts, i0) is None);
                    }
                    let ty: [u8; 7] = [98, 111, 111, 108, 101, 97, 110];
                    return Err(ParseError::invalid_value(clone_bytes(ty.as_slice()), d, trow, tcol));
                },
            }
        } else if which == 3 {
            if crate::dbl::check_f64_text(d.as_slice()) {
                val = Value::Double(clone_bytes(d.as_slice()));
            } else {
                proof {
                    assert(tok_inner(ts, i0) is None);
                }
                let ty: [u8; 6] = [100, 111, 117, 98, 108, 101];
                return Err(ParseError::invalid_value(clone_bytes(ty.as_slice()), d, trow, tcol));
            }
        } else {
            match crate::datetime::parse_datetime(d.as_slice()) {
                Some(dt) => {
                    val = Value::DateTime(dt);
                },
                None => {
                    proof {
                        assert(tok_inner(ts, i0) is None);
                    }
                    let ty: [u8; 16] = [100, 97, 116, 101, 84, 105, 109, 101, 46, 105, 115, 111, 56, 54, 48, 49];
                    return Err(ParseError::invalid_value(clone_bytes(ty.as_slice()), d, trow, tcol));
                },
            }
        }
        self.idx = self.idx + 1;
        let closes = self.idx < n && match &self.toks[self.idx] {
            Token::End { name: en } => bytes_eq(en.as_slice(), name.as_slice()),
            _ => false,
        };
        if !closes {
            proof {
                if i0 + 2 < ts.len() {
                    assert(ts[i0 + 2] == self.toks@[i0 + 2]@);
                }
                assert(tok_inner(ts, i0) is None);
            }
            let mut m: Vec<u8> = Vec::new();
            m.push(60);
            m.push(47);
            crate::encode::push_slice(&mut m, name.as_slice());
            m.push(62);
            return Err(self.expected_err(m));
        }
        self.idx = self.idx + 1;
        proof {
            assert(ts[i0 + 2] == TokView::End(name@));
            assert(tok_inner(ts, i0) == Some((i0 + 3, val@)));
            assert(wf_view(val@));
        }
        Ok(val)
    }
}

} // verus!

verus! {

impl Parser {
    /// `<struct>`: members until `</struct>`, each a `<member>` with a
    /// raw-character-data `<name>` and a value; a repeated key overwrites
    /// the earlier member.
    fn parse_struct(&mut self) -> (r: Result<Value, ParseError>)
        requires
            parser_inv(*old(self)),
            pidx(*old(self)) < ptoks(*old(self)).len(),
            ptoks(*old(self))[pidx(*old(self))] == TokView::Start(crate::encode::tn_struct()),
        ensures
            parser_inv(*final (self)),
            ptoks(*final (self)) == ptoks(*old(self)),
            pidx(*old(self)) <= pidx(*final (self)) <= ptoks(*old(self)).len(),
            r matches Ok(v) ==> tok_inner(ptoks(*old(self)), pidx(*old(self))) == Some(
                (pidx(*final (self)), v@),
            ) && wf_view(v@) && pidx(*final (self)) > pidx(*old(self)),
            r is Err ==> tok_inner(ptoks(*old(self)), pidx(*old(self))) is None,
        decreases ptoks(*old(self)).len() - pidx(*old(self)), 1int,
    {
        let ghost ts = ptoks(*self);
        let ghost i0 = self.idx as int;
        proof {
            lemma_tag_names_distinct();
        }
        let t_struct: [u8; 6] = [115, 116, 114, 117, 99, 116];
        let t_member: [u8; 6] = [109, 101, 109, 98, 101, 114];
        let t_name: [u8; 4] = [110, 97, 109, 101];
        proof {
            assert(t_struct@ =~= crate::encode::tn_struct());
            assert(t_member@ =~= crate::encode::tn_member());
            assert(t_name@ =~= crate::encode::tn_name());
        }
        let n = self.toks.len();
        self.idx = self.idx + 1;
        let mut members: Vec<(Vec<u8>, Value)> = Vec::new();
        proof {
            assert(entries_view(members@) =~= Seq::<(Seq<u8>, ValueView)>::empty());
            assert(wf_view(ValueView::Struct(entries_view(members@))));
        }
        loop
            invariant
                parser_inv(*self),
                ts == ptoks(*self),
                ts == ptoks(*old(self)),
                i0 == pidx(*old(self)),
                n == ts.len(),
                0 <= i0 < ts.len(),
                ts[i0] == TokView::Start(crate::encode::tn_struct()),
                i0 < self.idx <= ts.len(),
                t_struct@ == crate::encode::tn_struct(),
                t_member@ == crate::encode::tn_member(),
                t_name@ == crate::encode::tn_name(),
                wf_view(ValueView::Struct(entries_view(members@))),
                tok_members(ts, i0 + 1, Seq::<(Seq<u8>, ValueView)>::empty()) == tok_members(
                    ts,
                    self.idx as int,
                    entries_view(members@),
                ),
            decreases ts.len() - self.idx,
        {
            let ghost mi = self.idx as int;
            proof {
                lemma_tag_names_distinct();
            }
            if self.idx == n {
                proof {
                    assert(tok_members(ts, mi, entries_view(members@)) is None);
                    assert(tok_inner(ts, i0) is None);
                }
                return Err(self.expected_err(open_tag_msg(t_member.as_slice())));
            }
            let closes = match &self.toks[self.idx] {
                Token::End { name } => bytes_eq(name.as_slice(), t_struct.as_slice()),
                _ => false,
            };
            if closes {
                self.idx = self.idx + 1;
                let ghost em = entries_view(members@);
                let r = Value::Struct(members);
                proof {
                    assert(ts[mi] == TokView::End(crate::encode::tn_struct()));
                    assert(tok_members(ts, mi, em) == Some((mi + 1, em)));
                    assert(r@ == ValueView::Struct(em));
                    assert(tok_inner(ts, i0) == Some((mi + 1, r@)));
                    assert(wf_view(r@));
                }
                return Ok(r);
            }
            let opens_member = match &self.toks[self.idx] {
                Token::Start { name } => bytes_eq(name.as_slice(), t_member.as_slice()),
                _ => false,
            };
            if !opens_member {
                proof {
                    assert(ts[mi] == self.toks@[mi]@);
                    assert(tok_members(ts, mi, entries_view(members@)) is None);
                    assert(tok_inner(ts, i0) is None);
                }
                return Err(self.expected_err(open_tag_msg(t_member.as_slice())));
            }
            proof {
                assert(ts[mi] == TokView::Start(crate::encode::tn_member()));
            }
            self.idx = self.idx + 1;
            let opens_name = self.idx < n && match &self.toks[self.idx] {
                Token::Start { name } => bytes_eq(name.as_slice(), t_name.as_slice()),
                _ => false,
            };
            if !opens_name {
                proof {
                    if mi + 1 < ts.len() {
                        assert(ts[mi + 1] == self.toks@[mi + 1]@);
                    }
                    assert(tok_members(ts, mi, entries_view(members@)) is None);
                    assert(tok_inner(ts, i0) is None);
                }
                return Err(self.expected_err(open_tag_msg(t_name.as_slice())));
            }
            proof {
                assert(ts[mi + 1] == TokView::Start(crate::encode::tn_name()));
            }
            self.idx = self.idx + 1;
            let is_text = self.idx < n && matches!(&self.toks[self.idx], Token::Text { .. });
            if !is_text {
                proof {
                    if mi + 2 < ts.len() {
                        assert(ts[mi + 2] == self.toks@[mi + 2]@);
                    }
                    assert(tok_members(ts, mi, entries_view(members@)) is None);
                    assert(tok_inner(ts, i0) is None);
                }
                let l: [u8; 10] = [99, 104, 97, 114, 97, 99, 116, 101, 114, 115];
                // characters
                return Err(self.expected_err(clone_bytes(l.as_slice())));
            }
            let key = match &self.toks[self.idx] {
                Token::Text { data } => clone_bytes(data.as_slice()),
                _ => Vec::new(),
            };
            proof {
                assert(ts[mi + 2] == TokView::Text(key@));
            }
            self.idx = self.idx + 1;
            let closes_name = self.idx < n && match &self.toks[self.idx] {
                Token::End { name } => bytes_eq(name.as_slice(), t_name.as_slice()),
                _ => false,
            };
            if !closes_name {
                proof {
                    if mi + 3 < ts.len() {
                        assert(ts[mi + 3] == self.toks@[mi + 3]@);
                    }
                    assert(tok_members(ts, mi, entries_view(members@)) is None);
                    assert(tok_inner(ts, i0) is None);
                }
                let mut m: Vec<u8> = Vec::new();
                m.push(60);
                m.push(47);
                crate::encode::push_slice(&mut m, t_name.as_slice());
                m.push(62);
                return Err(self.expected_err(m));
            }
            proof {
                assert(ts[mi + 3] == TokView::End(crate::encode::tn_name()));
            }
            self.idx = self.idx + 1;
            let val = match self.parse_value() {
                Ok(v) => v,
                Err(e) => {
                    proof {
                        assert(tok_members(ts, mi, entries_view(members@)) is None);
                        assert(tok_inner(ts, i0) is None);
                    }
                    return Err(e);
                },
            };
            let ghost j = self.idx as int;
            let closes_member = self.idx < n && match &self.toks[self.idx] {
                Token::End { name } => bytes_eq(name.as_slice(), t_member.as_slice()),
                _ => false,
            };
            if !closes_member {
                proof {
                    if j < ts.len() {
                        assert(ts[j] == self.toks@[j]@);
                    }
                    assert(tok_members(ts, mi, entries_view(members@)) is None);
                    assert(tok_inner(ts, i0) is None);
                }
                let mut m: Vec<u8> = Vec::new();
                m.push(60);
                m.push(47);
                crate::encode::push_slice(&mut m, t_member.as_slice());
                m.push(62);
                return Err(self.expected_err(m));
            }
            self.idx = self.idx + 1;
            let ghost acc0 = entries_view(members@);
            proof {
                assert(ts[j] == TokView::End(crate::encode::tn_member()));
                crate::value::lemma_struct_set_wf(acc0, key@, view_of(val));
                assert(tok_members(ts, mi, acc0) == tok_members(
                    ts,
                    j + 1,
                    crate::value::spec_struct_set(acc0, key@, view_of(val)),
                ));
            }
            struct_set(&mut members, key, val);
            proof {
                assert(wf_view(ValueView::Struct(entries_view(members@))));
            }
        }
    }

    /// `<array>`: a `<data>` element holding the values in order.
    fn parse_array(&mut self) -> (r: Result<Value, ParseError>)
        requires
            parser_inv(*old(self)),
            pidx(*old(self)) < ptoks(*old(self)).len(),
            ptoks(*old(self))[pidx(*old(self))] == TokView::Start(crate::encode::tn_array()),
        ensures
            parser_inv(*final (self)),
            ptoks(*final (self)) == ptoks(*old(self)),
            pidx(*old(self)) <= pidx(*final (self)) <= ptoks(*old(self)).len(),
            r matches Ok(v) ==> tok_inner(ptoks(*old(self)), pidx(*old(self))) == Some(
                (pidx(*final (self)), v@),
            ) && wf_view(v@) && pidx(*final (self)) > pidx(*old(self)),
            r is Err ==> tok_inner(ptoks(*old(self)), pidx(*old(self))) is None,
        decreases ptoks(*old(self)).len() - pidx(*old(self)), 1int,
    {
        let ghost ts = ptoks(*self);
        let ghost i0 = self.idx as int;
        proof {
            lemma_tag_names_distinct();
        }
        let t_array: [u8; 5] = [97, 114, 114, 97, 121];
        let t_data: [u8; 4] = [100, 97, 116, 97];
        proof {
            assert(t_array@ =~= crate::encode::tn_array());
            assert(t_data@ =~= crate::encode::tn_data());
        }
        let n = self.toks.len();
        self.idx = self.idx + 1;
        let opens_data = self.idx < n && match &self.toks[self.idx] {
            Token::Start { name } => bytes_eq(name.as_slice(), t_data.as_slice()),
            _ => false,
        };
        if !opens_data {
            proof {
                if i0 + 1 < ts.len() {
                    assert(ts[i0 + 1] == self.toks@[i0 + 1]@);
                }
                assert(tok_inner(ts, i0) is None);
            }
            return Err(self.expected_err(open_tag_msg(t_data.as_slice())));
        }
        proof {
            assert(ts[i0 + 1] == TokView::Start(crate::encode::tn_data()));
        }
        self.idx = self.idx + 1;
        let mut elems: Vec<Value> = Vec::new();
        proof {
            assert(elems_view(elems@) =~= Seq::<ValueView>::empty());
            assert(wf_view(ValueView::Array(elems_view(elems@))));
        }
        loop
            invariant_except_break
                tok_elems(ts, i0 + 2, Seq::<ValueView>::empty()) == tok_elems(
                    ts,
                    self.idx as int,
                    elems_view(elems@),
                ),
            invariant
                parser_inv(*self),
                ts == ptoks(*self),
                ts == ptoks(*old(self)),
                i0 == pidx(*old(self)),
                n == ts.len(),
                0 <= i0,
                i0 + 1 < ts.len(),
                ts[i0] == TokView::Start(crate::encode::tn_array()),
                ts[i0 + 1] == TokView::Start(crate::encode::tn_data()),
                i0 + 1 < self.idx <= ts.len(),
                t_array@ == crate::encode::tn_array(),
                t_data@ == crate::encode::tn_data(),
                wf_view(ValueView::Array(elems_view(elems@))),
            ensures
                tok_elems(ts, i0 + 2, Seq::<ValueView>::empty()) == Some(
                    (self.idx as int, elems_view(elems@)),
                ),
            decreases ts.len() - self.idx,
        {
            let ghost ei = self.idx as int;
            proof {
                lemma_tag_names_distinct();
            }
            if self.idx == n {
                proof {
                    assert(tok_elems(ts, ei, elems_view(elems@)) is None);
                    assert(tok_inner(ts, i0) is None);
                }
                let vt: [u8; 5] = [118, 97, 108, 117, 101];
                return Err(self.expected_err(open_tag_msg(vt.as_slice())));
            }
            let closes_data = match &self.toks[self.idx] {
                Token::End { name } => bytes_eq(name.as_slice(), t_data.as_slice()),
                _ => false,
            };
            if closes_data {
                self.idx = self.idx + 1;
                proof {
                    assert(ts[ei] == TokView::End(crate::encode::tn_data()));
                    assert(tok_elems(ts, ei, elems_view(elems@)) == Some(
                        (ei + 1, elems_view(elems@)),
                    ));
                }
                break ;
            }
            proof {
                assert(ts[ei] == self.toks@[ei]@);
                assert(ts[ei] != TokView::End(crate::encode::tn_data()));
            }
            let v = match self.parse_value() {
                Ok(v) => v,
                Err(e) => {
                    proof {
                        assert(tok_elems(ts, ei, elems_view(elems@)) is None);
                        assert(tok_inner(ts, i0) is None);
                    }
                    return Err(e);
                },
            };
            let ghost elems0 = elems@;
            let ghost vv = view_of(v);
            elems.push(v);
            proof {
                assert(elems_view(elems@) =~= elems_view(elems0).push(vv));
                let ev = elems_view(elems@);
                let ev0 = elems_view(elems0);
                crate::value::lemma_wf_elems_equiv(ev0, 0);
                assert forall|i: int| #![trigger ev[i]] 0 <= i < ev.len() implies wf_view(
                    ev[i],
                ) by {
                    if i < ev0.len() {
                        assert(ev[i] == ev0[i]);
                        assert(wf_view(ev0[i]));
                    } else {
                        assert(ev[i] == vv);
                    }
                }
                crate::value::lemma_wf_elems_equiv(ev, 0);
                assert(wf_view(ValueView::Array(elems_view(elems@))));
                assert(tok_elems(ts, ei, ev0) == tok_elems(ts, self.idx as int, ev));
            }
        }
        // `</data>` consumed; now `</array>`
        let ghost j = self.idx as int;
        let closes = self.idx < n && match &self.toks[self.idx] {
            Token::End { name } => bytes_eq(name.as_slice(), t_array.as_slice()),
            _ => false,
        };
        if !closes {
            proof {
                if j < ts.len() {
                    assert(ts[j] == self.toks@[j]@);
                }
                assert(tok_inner(ts, i0) is None);
            }
            let mut m: Vec<u8> = Vec::new();
            m.push(60);
            m.push(47);
            crate::encode::push_slice(&mut m, t_array.as_slice());
            m.push(62);
            return Err(self.expected_err(m));
        }
        self.idx = self.idx + 1;
        let r = Value::Array(elems);
        proof {
            assert(ts[j] == TokView::End(crate::encode::tn_array()));
            assert(tok_inner(ts, i0) == Some((j + 1, r@)));
            assert(wf_view(r@));
        }
        Ok(r)
    }
}

} // verus!

verus! {

impl Parser {
    /// Consumes a `<methodResponse>` document from its first token:
    /// either a `<fault>` holding a well-shaped fault struct, or
    /// `<params>` with exactly one `<param>` value, exactly as
    /// `tok_response` says of the tokens. A `<fault>` whose struct has
    /// the wrong shape is a parse error, never coerced into a fault.
    pub fn parse_response(&mut self) -> (r: Result<Response, ParseError>)
        requires
            parser_inv(*old(self)),
            pidx(*old(self)) == 0,
        ensures
            parser_inv(*final (self)),
            ptoks(*final (self)) == ptoks(*old(self)),
            r matches Ok(resp) ==> (resp matches Ok(v) ==> tok_response(ptoks(*old(self)))
                == Some(Ok::<ValueView, FaultView>(v@)) && wf_view(v@)),
            r matches Ok(resp) ==> (resp matches Err(f) ==> tok_response(ptoks(*old(self)))
                == Some(Err::<ValueView, FaultView>(f@))),
            r matches Ok(resp) ==> (resp matches Err(f) ==> exists|vv: ValueView|
                wf_view(vv) && crate::fault::fault_of_value(vv) == Some(f@)),
            r is Err ==> tok_response(ptoks(*old(self))) is None,
    {
        let ghost ts = ptoks(*self);
        proof {
            lemma_tag_names_distinct();
        }
        let t_mr: [u8; 14] = [109, 101, 116, 104, 111, 100, 82, 101, 115, 112, 111, 110, 115, 101];
        let t_fault: [u8; 5] = [102, 97, 117, 108, 116];
        let t_params: [u8; 6] = [112, 97, 114, 97, 109, 115];
        let t_param: [u8; 5] = [112, 97, 114, 97, 109];
        proof {
            assert(t_mr@ =~= tg_method_response());
            assert(t_fault@ =~= tg_fault());
            assert(t_params@ =~= tg_params());
            assert(t_param@ =~= tg_param());
        }
        let n = self.toks.len();
        let opens = self.idx < n && match &self.toks[self.idx] {
            Token::Start { name } => bytes_eq(name.as_slice(), t_mr.as_slice()),
            _ => false,
        };
        if !opens {
            proof {
                if 0 < ts.len() {
                    assert(ts[0] == self.toks@[0]@);
                }
                assert(tok_response(ts) is None);
            }
            return Err(self.expected_err(open_tag_msg(t_mr.as_slice())));
        }
        proof {
            assert(ts[0] == TokView::Start(tg_method_response()));
        }
        self.idx = self.idx + 1;
        let k: usize = if self.idx == n {
            3
        } else {
            match &self.toks[self.idx] {
                Token::Start { name } => {
                    if bytes_eq(name.as_slice(), t_fault.as_slice()) {
                        0
                    } else if bytes_eq(name.as_slice(), t_params.as_slice()) {
                        1
                    } else {
                        2
                    }
                },
                _ => 3,
            }
        };
        proof {
            if 1 < ts.len() {
                assert(ts[1] == self.toks@[1]@);
            }
        }
        if k == 0 {
            self.idx = self.idx + 1;
            let v = match self.parse_value() {
                Ok(v) => v,
                Err(e) => {
                    proof {
                        assert(tok_response(ts) is None);
                    }
                    return Err(e);
                },
            };
            match Fault::from_value(&v) {
                Some(f) => {
                    proof {
                        assert(tok_response(ts) == Some(
                            Err::<ValueView, crate::fault::FaultView>(f@),
                        ));
                        assert(wf_view(v@) && crate::fault::fault_of_value(v@) == Some(f@));
                    }
                    Ok(Err(f))
                },
                None => {
                    proof {
                        assert(tok_response(ts) is None);
                    }
                    let l: [u8; 17] = [109, 97, 108, 102, 111, 114, 109, 101, 100, 32, 60, 102, 97, 117, 108, 116, 62];
                    // malformed <fault>
                    Err(self.syntax_here(l.as_slice()))
                },
            }
        } else if k == 1 {
            self.idx = self.idx + 1;
            let opens_param = self.idx < n && match &self.toks[self.idx] {
                Token::Start { name } => bytes_eq(name.as_slice(), t_param.as_slice()),
                _ => false,
            };
            if !opens_param {
                proof {
                    if 2 < ts.len() {
                        assert(ts[2] == self.toks@[2]@);
                    }
                    assert(tok_response(ts) is None);
                }
                return Err(self.expected_err(open_tag_msg(t_param.as_slice())));
            }
            proof {
                assert(ts[2] == TokView::Start(tg_param()));
            }
            self.idx = self.idx + 1;
            let v = match self.parse_value() {
                Ok(v) => v,
                Err(e) => {
                    proof {
                        assert(tok_response(ts) is None);
                    }
                    return Err(e);
                },
            };
            let ghost j = self.idx as int;
            let closes = self.idx < n && match &self.toks[self.idx] {
                Token::End { name } => bytes_eq(name.as_slice(), t_param.as_slice()),
                _ => false,
            };
            if !closes {
                proof {
                    if j < ts.len() {
                        assert(ts[j] == self.toks@[j]@);
                    }
                    assert(tok_response(ts) is None);
                }
                let mut m: Vec<u8> = Vec::new();
                m.push(60);
                m.push(47);
                crate::encode::push_slice(&mut m, t_param.as_slice());
                m.push(62);
                return Err(self.expected_err(m));
            }
            self.idx = self.idx + 1;
            proof {
                assert(ts[j] == TokView::End(tg_param()));
                assert(tok_response(ts) == Some(Ok::<ValueView, crate::fault::FaultView>(v@)));
            }
            Ok(Ok(v))
        } else if k == 2 {
            let name: Vec<u8> = match &self.toks[self.idx] {
                Token::Start { name } => clone_bytes(name.as_slice()),
                _ => Vec::new(),
            };
            proof {
                assert(tok_response(ts) is None);
            }
            let l: [u8; 25] = [60, 102, 97, 117, 108, 116, 62, 32, 111, 114, 32, 60, 112, 97, 114, 97, 109, 115, 62, 44, 32, 103, 111, 116, 32];
            // <fault> or <params>, got
            let mut msg = clone_bytes(l.as_slice());
            crate::encode::push_slice(&mut msg, name.as_slice());
            Err(self.expected_err(msg))
        } else {
            proof {
                assert(tok_response(ts) is None);
            }
            let l: [u8; 19] = [60, 102, 97, 117, 108, 116, 62, 32, 111, 114, 32, 60, 112, 97, 114, 97, 109, 115, 62];
            // <fault> or <params>
            Err(self.expected_err(clone_bytes(l.as_slice())))
        }
    }

    /// Builds a syntax error at the cursor position.
    fn syntax_here(&self, msg: &[u8]) -> (r: ParseError)
        requires
            parser_inv(*self),
        ensures
            r@ == (crate::error::ParseErrorView::Syntax {
                msg: msg@,
                row: prow(*self),
                col: pcol(*self),
            }),
    {
        let (row, col) = self.here();
        ParseError::syntax(clone_bytes(msg), row, col)
    }

    /// Scans a complete document into its tokens, rejecting malformed
    /// XML, attributes and prefixed names, and builds a parser over them:
    /// the tokens are exactly what `sp_tokens` says of the bytes.
    pub fn new(doc: &[u8]) -> (r: Result<Parser, ParseError>)
        ensures
            r matches Ok(p) ==> parser_inv(p) && pidx(p) == 0 && sp_tokens(
                doc@,
                0,
                None::<Seq<u8>>,
            ) == Some(ptoks(p)),
            r is Err ==> sp_tokens(doc@, 0, None::<Seq<u8>>) is None,
    {
        let mut sc = Scanner {
            doc: clone_bytes(doc),
            pos: 0,
            row: 1,
            col: 1,
            last_row: 1,
            last_col: 1,
            cur: Token::Eof,
            pend: None,
        };
        match sc.next() {
            Ok(()) => {},
            Err(e) => {
                proof {
                    assert(sp_tokens(doc@, 0, None::<Seq<u8>>) is None);
                }
                return Err(e);
            },
        }
        let mut toks: Vec<Token> = Vec::new();
        let mut rows: Vec<usize> = Vec::new();
        let mut cols: Vec<usize> = Vec::new();
        proof {
            assert(toks_view(toks@) =~= Seq::<TokView>::empty());
            let curpart: Seq<TokView> = if sc.cur is Eof {
                Seq::empty()
            } else {
                seq![sc.cur@]
            };
            match sp_tokens(doc@, sc.pos as int, opt_view(sc.pend)) {
                Some(rest) => {
                    assert(sp_tokens(doc@, 0, None::<Seq<u8>>) == Some(curpart + rest));
                    assert(curpart + rest =~= toks_view(toks@) + curpart + rest);
                },
                None => {
                    assert(sp_tokens(doc@, 0, None::<Seq<u8>>) is None);
                },
            }
        }
        loop
            invariant
                scanner_inv(sc),
                sdoc(sc) == doc@,
                rows@.len() == toks@.len(),
                cols@.len() == toks@.len(),
                sc.cur is Eof ==> sc.pos == doc@.len() && sc.pend is None,
                match sp_tokens(doc@, sc.pos as int, opt_view(sc.pend)) {
                    Some(rest) => sp_tokens(doc@, 0, None::<Seq<u8>>) == Some(
                        toks_view(toks@) + (if sc.cur is Eof {
                            Seq::<TokView>::empty()
                        } else {
                            seq![sc.cur@]
                        }) + rest,
                    ),
                    None => sp_tokens(doc@, 0, None::<Seq<u8>>) is None,
                },
            ensures
                sc.cur is Eof,
            decreases smeasure(sc),
        {
            if matches!(&sc.cur, Token::Eof) {
                break ;
            }
            toks.push(sc.cur_clone());
            rows.push(sc.last_row);
            cols.push(sc.last_col);
            let ghost toks0 = toks@;
            let ghost cur0 = sc.cur@;
            let ghost pos0 = sc.pos as int;
            let ghost pend0 = opt_view(sc.pend);
            match sc.next() {
                Ok(()) => {
                    proof {
                        let tv_old = toks_view(toks0.drop_last());
                        assert(toks_view(toks@) =~= tv_old + seq![cur0]);
                        let curpart: Seq<TokView> = if sc.cur is Eof {
                            Seq::empty()
                        } else {
                            seq![sc.cur@]
                        };
                        match sp_tokens(doc@, sc.pos as int, opt_view(sc.pend)) {
                            Some(rest2) => {
                                assert(sp_tokens(doc@, pos0, pend0) == Some(curpart + rest2));
                                assert(tv_old + seq![cur0] + (curpart + rest2) =~= (tv_old + seq![
                                    cur0,
                                ]) + curpart + rest2);
                            },
                            None => {
                                assert(sp_tokens(doc@, pos0, pend0) is None);
                            },
                        }
                    }
                },
                Err(e) => {
                    proof {
                        assert(sp_tokens(doc@, pos0, pend0) is None);
                        assert(sp_tokens(doc@, 0, None::<Seq<u8>>) is None);
                    }
                    return Err(e);
                },
            }
        }
        let ghost tv = toks_view(toks@);
        proof {
            assert(sp_tokens(doc@, sc.pos as int, opt_view(sc.pend)) == Some(
                Seq::<TokView>::empty(),
            ));
            assert(tv + Seq::<TokView>::empty() + Seq::<TokView>::empty() =~= tv);
        }
        let p = Parser {
            toks,
            rows,
            cols,
            end_row: sc.last_row,
            end_col: sc.last_col,
            idx: 0,
        };
        proof {
            assert(ptoks(p) == tv);
        }
        Ok(p)
    }
}

/// Parses a complete `<methodResponse>` document: exactly what
/// `response_text` says of its bytes.
pub fn parse_response(doc: &[u8]) -> (r: Result<Response, ParseError>)
    ensures
        r matches Ok(resp) ==> (resp matches Ok(v) ==> response_text(doc@) == Some(
            Ok::<ValueView, FaultView>(v@),
        ) && wf_view(v@)),
        r matches Ok(resp) ==> (resp matches Err(f) ==> response_text(doc@) == Some(
            Err::<ValueView, FaultView>(f@),
        )),
        r matches Ok(resp) ==> (resp matches Err(f) ==> exists|vv: ValueView|
            wf_view(vv) && crate::fault::fault_of_value(vv) == Some(f@)),
        r is Err ==> response_text(doc@) is None,
{
    let mut p = Parser::new(doc)?;
    p.parse_response()
}

} // verus!

verus! {

/// A run without `<` ends exactly at the first `<` (or the document end).
proof fn lemma_text_end_at(doc: Seq<u8>, a: int, b: int)
    requires
        0 <= a <= b <= doc.len(),
        forall|k: int| a <= k < b ==> #[trigger] doc[k] != 60,
        b == doc.len() || doc[b] == 60,
    ensures
        sp_text_end(doc, a) == b,
    decreases b - a,
{
    if a < b {
        lemma_text_end_at(doc, a + 1, b);
    }
}

/// A name whose bytes are no delimiters ends exactly at the first
/// delimiter.
proof fn lemma_name_end_at(doc: Seq<u8>, a: int, b: int)
    requires
        0 <= a <= b < doc.len(),
        forall|k: int|
            a <= k < b ==> !(#[trigger] doc[k] == 62 || doc[k] == 47 || crate::b64::is_ws(doc[k])),
        doc[b] == 62 || doc[b] == 47 || crate::b64::is_ws(doc[b]),
    ensures
        sp_name_end(doc, a) == b,
    decreases b - a,
{
    if a < b {
        lemma_name_end_at(doc, a + 1, b);
    }
}

/// Escaped text holds no `<`, and holds a non-whitespace byte exactly
/// where the original does.
proof fn lemma_escape_bytes(s: Seq<u8>)
    ensures
        forall|k: int| 0 <= k < escape_spec(s).len() ==> #[trigger] escape_spec(s)[k] != 60,
        !all_ws(s) ==> !all_ws(escape_spec(s)),
        s.len() > 0 ==> escape_spec(s).len() > 0,
    decreases s.len(),
{
    if s.len() > 0 {
        lemma_escape_bytes(s.drop_first());
        let head = crate::escape::escape_byte(s[0]);
        let rest = escape_spec(s.drop_first());
        assert(escape_spec(s) == head + rest);
        assert forall|k: int| 0 <= k < escape_spec(s).len() implies #[trigger] escape_spec(
            s,
        )[k] != 60 by {
            if k < head.len() {
                assert(escape_spec(s)[k] == head[k]);
            } else {
                assert(escape_spec(s)[k] == rest[k - head.len()]);
            }
        }
        if !all_ws(s) {
            if !crate::b64::is_ws(s[0]) {
                // the head piece holds a non-whitespace byte
                if s[0] == 38 || s[0] == 60 {
                    assert(escape_spec(s)[0] == 38);
                    assert(!crate::b64::is_ws(escape_spec(s)[0]));
                } else {
                    assert(escape_spec(s)[0] == s[0]);
                }
            } else {
                assert(!all_ws(s.drop_first())) by {
                    let w = choose|k: int| 0 <= k < s.len() && !crate::b64::is_ws(s[k]);
                    assert(s.drop_first()[w - 1] == s[w]);
                }
                let w = choose|k: int| 0 <= k < rest.len() && !crate::b64::is_ws(rest[k]);
                assert(escape_spec(s)[head.len() + w] == rest[w]);
            }
        }
    }
}

} // verus!

verus! {

/// The scanner's steps over the document written for a string value.
#[verifier::rlimit(100)]
#[verifier::spinoff_prover]
proof fn lemma_string_scan_steps(s: Seq<u8>)
    requires
        all_ws(s) ==> s.len() == 0,
    ensures
        ({
            let doc = crate::encode::encode_value(ValueView::String(s));
            let el = escape_spec(s).len() as int;
            &&& doc.len() == 35 + el
            &&& sp_next(doc, 0) == (ScanOut::Tok {
                t: TokView::Start(crate::encode::tn_value()),
                pend: None::<Seq<u8>>,
                end: 7,
            })
            &&& sp_next(doc, 7) == sp_next(doc, 8)
            &&& sp_next(doc, 8) == (ScanOut::Tok {
                t: TokView::Start(crate::encode::tn_string()),
                pend: None::<Seq<u8>>,
                end: 16,
            })
            &&& (el > 0 ==> sp_next(doc, 16) == (ScanOut::Tok {
                t: TokView::Text(s),
                pend: None::<Seq<u8>>,
                end: 16 + el,
            }))
            &&& sp_next(doc, 16 + el) == (ScanOut::Tok {
                t: TokView::End(crate::encode::tn_string()),
                pend: None::<Seq<u8>>,
                end: 25 + el,
            })
            &&& sp_next(doc, 25 + el) == sp_next(doc, 26 + el)
            &&& sp_next(doc, 26 + el) == (ScanOut::Tok {
                t: TokView::End(crate::encode::tn_value()),
                pend: None::<Seq<u8>>,
                end: 34 + el,
            })
            &&& sp_next(doc, 34 + el) == sp_next(doc, 35 + el)
            &&& sp_next(doc, 35 + el) == (ScanOut::Tok {
                t: TokView::Eof,
                pend: None::<Seq<u8>>,
                end: 35 + el,
            })
        }),
{
    lemma_escape_bytes(s);
    crate::escape::lemma_unescape_escape(s);
    let e = escape_spec(s);
    let el = e.len() as int;
    let doc = crate::encode::encode_value(ValueView::String(s));
    let p1 = seq![60u8, 118u8, 97u8, 108u8, 117u8, 101u8, 62u8, 10u8, 60u8, 115u8, 116u8, 114u8, 105u8, 110u8, 103u8, 62u8];
    let p2 = seq![60u8, 47u8, 115u8, 116u8, 114u8, 105u8, 110u8, 103u8, 62u8, 10u8, 60u8, 47u8, 118u8, 97u8, 108u8, 117u8, 101u8, 62u8, 10u8];
    assert(doc =~= p1 + e + p2);
    let n = doc.len() as int;
    assert(n == 35 + el);
    assert forall|k: int| 0 <= k < 16 implies doc[k] == p1[k] by {}
    assert forall|k: int| 0 <= k < el implies doc[16 + k] == e[k] by {}
    assert forall|k: int| 0 <= k < 19 implies doc[16 + el + k] == p2[k] by {}
    // `<value>` at 0
    assert(doc[0] == 60 && doc[1] == 118);
    lemma_name_end_at(doc, 1, 6);
    assert forall|k: int| 1 <= k < 6 implies #[trigger] doc[k] != 58 by {}
    assert(sp_ws_end(doc, 6) == 6);
    assert(doc.subrange(1, 6) =~= crate::encode::tn_value());
    assert(sp_next(doc, 0) == (ScanOut::Tok {
        t: TokView::Start(crate::encode::tn_value()),
        pend: None::<Seq<u8>>,
        end: 7,
    }));
    // the newline at 7 is skipped
    assert(doc[7] == 10 && doc[8] == 60);
    lemma_text_end_at(doc, 7, 8);
    assert(doc.subrange(7, 8) =~= seq![10u8]);
    assert(all_ws(doc.subrange(7, 8)));
    assert(sp_next(doc, 7) == sp_next(doc, 8));
    // `<string>` at 8
    assert(doc[9] == 115);
    lemma_name_end_at(doc, 9, 15);
    assert forall|k: int| 9 <= k < 15 implies #[trigger] doc[k] != 58 by {}
    assert(sp_ws_end(doc, 15) == 15);
    assert(doc.subrange(9, 15) =~= crate::encode::tn_string());
    assert(sp_next(doc, 8) == (ScanOut::Tok {
        t: TokView::Start(crate::encode::tn_string()),
        pend: None::<Seq<u8>>,
        end: 16,
    }));
    // the character data, when there is any
    if el > 0 {
        assert(s.len() > 0);
        assert(!all_ws(s));
        assert(!all_ws(e));
        assert(doc[16] == e[0] && doc[16] != 60);
        assert(doc[16 + el] == p2[0]);
        assert(doc[16 + el] == 60);
        assert forall|k: int| 16 <= k < 16 + el implies #[trigger] doc[k] != 60 by {
            assert(doc[k] == e[k - 16]);
        }
        lemma_text_end_at(doc, 16, 16 + el);
        assert(doc.subrange(16, 16 + el) =~= e);
        assert(!all_ws(doc.subrange(16, 16 + el)));
        assert(crate::escape::unescape_spec(e) == Some(s));
        assert(sp_next(doc, 16) == (ScanOut::Tok {
            t: TokView::Text(s),
            pend: None::<Seq<u8>>,
            end: 16 + el,
        }));
    }
    // `</string>` at 16 + el
    assert(doc[16 + el] == 60 && doc[17 + el] == 47);
    assert forall|k: int| 18 + el <= k < 24 + el implies !(#[trigger] doc[k] == 62 || doc[k] == 47
        || crate::b64::is_ws(doc[k])) by {
        assert(doc[k] == p2[k - 16 - el]);
    }
    assert(doc[24 + el] == 62);
    lemma_name_end_at(doc, 18 + el, 24 + el);
    assert forall|k: int| 18 + el <= k < 24 + el implies #[trigger] doc[k] != 58 by {
        assert(doc[k] == p2[k - 16 - el]);
    }
    assert(sp_ws_end(doc, 24 + el) == 24 + el);
    assert(doc.subrange(18 + el, 24 + el) =~= crate::encode::tn_string());
    assert(sp_next(doc, 16 + el) == (ScanOut::Tok {
        t: TokView::End(crate::encode::tn_string()),
        pend: None::<Seq<u8>>,
        end: 25 + el,
    }));
    // the newline, then `</value>`
    assert(doc[25 + el] == 10 && doc[26 + el] == 60);
    lemma_text_end_at(doc, 25 + el, 26 + el);
    assert(doc.subrange(25 + el, 26 + el) =~= seq![10u8]);
    assert(all_ws(doc.subrange(25 + el, 26 + el)));
    assert(sp_next(doc, 25 + el) == sp_next(doc, 26 + el));
    assert(doc[26 + el] == 60 && doc[27 + el] == 47);
    assert forall|k: int| 28 + el <= k < 33 + el implies !(#[trigger] doc[k] == 62 || doc[k] == 47
        || crate::b64::is_ws(doc[k])) by {
        assert(doc[k] == p2[k - 16 - el]);
    }
    assert(doc[33 + el] == 62);
    lemma_name_end_at(doc, 28 + el, 33 + el);
    assert forall|k: int| 28 + el <= k < 33 + el implies #[trigger] doc[k] != 58 by {
        assert(doc[k] == p2[k - 16 - el]);
    }
    assert(sp_ws_end(doc, 33 + el) == 33 + el);
    assert(doc.subrange(28 + el, 33 + el) =~= crate::encode::tn_value());
    assert(sp_next(doc, 26 + el) == (ScanOut::Tok {
        t: TokView::End(crate::encode::tn_value()),
        pend: None::<Seq<u8>>,
        end: 34 + el,
    }));
    // the final newline, then the end of the document
    assert(doc[34 + el] == 10);
    lemma_text_end_at(doc, 34 + el, 35 + el);
    assert(doc.subrange(34 + el, 35 + el) =~= seq![10u8]);
    assert(all_ws(doc.subrange(34 + el, 35 + el)));
    assert(sp_next(doc, 34 + el) == sp_next(doc, 35 + el));
    assert(sp_next(doc, 35 + el) == (ScanOut::Tok {
        t: TokView::Eof,
        pend: None::<Seq<u8>>,
        end: 35 + el,
    }));
}

/// The tokens the scanner yields for the document written for a string
/// value.
pub open spec fn string_tokens(s: Seq<u8>) -> Seq<TokView> {
    if escape_spec(s).len() > 0 {
        seq![
            TokView::Start(crate::encode::tn_value()),
            TokView::Start(crate::encode::tn_string()),
            TokView::Text(s),
            TokView::End(crate::encode::tn_string()),
            TokView::End(crate::encode::tn_value()),
        ]
    } else {
        seq![
            TokView::Start(crate::encode::tn_value()),
            TokView::Start(crate::encode::tn_string()),
            TokView::End(crate::encode::tn_string()),
            TokView::End(crate::encode::tn_value()),
        ]
    }
}

/// The scan of the document written for a string value yields exactly
/// its tokens.
#[verifier::rlimit(100)]
#[verifier::spinoff_prover]
proof fn lemma_string_tokens(s: Seq<u8>)
    requires
        all_ws(s) ==> s.len() == 0,
    ensures
        sp_tokens(crate::encode::encode_value(ValueView::String(s)), 0, None::<Seq<u8>>) == Some(
            string_tokens(s),
        ),
{
    lemma_string_scan_steps(s);
    let e = escape_spec(s);
    let el = e.len() as int;
    let doc = crate::encode::encode_value(ValueView::String(s));
    let ts = string_tokens(s);
    assert(sp_tokens(doc, 34 + el, None::<Seq<u8>>) == Some(Seq::<TokView>::empty()));
    assert(sp_tokens(doc, 25 + el, None::<Seq<u8>>) == Some(
        seq![TokView::End(crate::encode::tn_value())] + Seq::<TokView>::empty(),
    ));
    assert(sp_tokens(doc, 16 + el, None::<Seq<u8>>) == Some(
        seq![TokView::End(crate::encode::tn_string())] + (seq![
            TokView::End(crate::encode::tn_value()),
        ] + Seq::<TokView>::empty()),
    ));
    let tail2 = seq![
        TokView::End(crate::encode::tn_string()),
        TokView::End(crate::encode::tn_value()),
    ];
    assert(seq![TokView::End(crate::encode::tn_string())] + (seq![
        TokView::End(crate::encode::tn_value()),
    ] + Seq::<TokView>::empty()) =~= tail2);
    if el > 0 {
        assert(sp_tokens(doc, 16, None::<Seq<u8>>) == Some(seq![TokView::Text(s)] + tail2));
        assert(sp_tokens(doc, 7, None::<Seq<u8>>) == Some(
            seq![TokView::Start(crate::encode::tn_string())] + (seq![TokView::Text(s)] + tail2),
        ));
        assert(sp_tokens(doc, 0, None::<Seq<u8>>) == Some(
            seq![TokView::Start(crate::encode::tn_value())] + (seq![
                TokView::Start(crate::encode::tn_string()),
            ] + (seq![TokView::Text(s)] + tail2)),
        ));
        assert(seq![TokView::Start(crate::encode::tn_value())] + (seq![
            TokView::Start(crate::encode::tn_string()),
        ] + (seq![TokView::Text(s)] + tail2)) =~= ts);
    } else {
        assert(sp_tokens(doc, 7, None::<Seq<u8>>) == Some(
            seq![TokView::Start(crate::encode::tn_string())] + tail2,
        ));
        assert(sp_tokens(doc, 0, None::<Seq<u8>>) == Some(
            seq![TokView::Start(crate::encode::tn_value())] + (seq![
                TokView::Start(crate::encode::tn_string()),
            ] + tail2),
        ));
        assert(seq![TokView::Start(crate::encode::tn_value())] + (seq![
            TokView::Start(crate::encode::tn_string()),
        ] + tail2) =~= ts);
    }
}

/// Decode of encode for strings: the document the encoder writes for a
/// string value scans and parses back to exactly that string. A string
/// that holds only whitespace, and is not empty, is out: its character
/// data reads back as insignificant whitespace between tags.
#[verifier::rlimit(100)]
#[verifier::spinoff_prover]
pub proof fn lemma_string_roundtrip(s: Seq<u8>)
    requires
        all_ws(s) ==> s.len() == 0,
    ensures
        ({
            let doc = crate::encode::encode_value(ValueView::String(s));
            match sp_tokens(doc, 0, None::<Seq<u8>>) {
                Some(ts) => tok_value(ts, 0) == Some((ts.len() as int, ValueView::String(s))),
                None => false,
            }
        }),
{
    lemma_tag_names_distinct();
    lemma_string_tokens(s);
    lemma_escape_bytes(s);
    let ts = string_tokens(s);
    if escape_spec(s).len() > 0 {
        assert(tok_inner(ts, 1) == Some((4int, ValueView::String(s))));
        assert(tok_value(ts, 0) == Some((5int, ValueView::String(s))));
    } else {
        assert(s.len() == 0);
        assert(s =~= Seq::<u8>::empty());
        assert(ts[1] == TokView::Start(crate::encode::tn_string()));
        assert(tok_value(ts, 0) == Some((4int, ValueView::String(s))));
    }
}

} // verus!
