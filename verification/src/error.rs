//! The error surface: one opaque error type with kind-revealing accessors,
//! and the parse-error record that carries what was expected, what was
//! found, and the position in the document.

use vstd::prelude::*;

use crate::encode::push_slice;
use crate::fault::{Fault, FaultView};
use crate::numtext::{dec_digits, push_dec_u64};

verus! {

pub open spec fn lit_unexp() -> Seq<u8> {
    seq![117u8, 110u8, 101u8, 120u8, 112u8, 101u8, 99u8, 116u8, 101u8, 100u8, 32u8, 88u8, 77u8, 76u8, 32u8, 97u8, 116u8, 32u8]  // 'unexpected XML at '
}

pub open spec fn lit_expopen() -> Seq<u8> {
    seq![32u8, 40u8, 101u8, 120u8, 112u8, 101u8, 99u8, 116u8, 101u8, 100u8, 32u8]  // ' (expected '
}

pub open spec fn lit_foundsep() -> Seq<u8> {
    seq![44u8, 32u8, 102u8, 111u8, 117u8, 110u8, 100u8, 32u8]  // ', found '
}

pub open spec fn lit_invty() -> Seq<u8> {
    seq![105u8, 110u8, 118u8, 97u8, 108u8, 105u8, 100u8, 32u8, 118u8, 97u8, 108u8, 117u8, 101u8, 32u8, 102u8, 111u8, 114u8, 32u8, 116u8, 121u8, 112u8, 101u8, 32u8, 39u8]  // "invalid value for type '"
}

pub open spec fn lit_invat() -> Seq<u8> {
    seq![39u8, 32u8, 97u8, 116u8, 32u8]  // "' at "
}

pub open spec fn lit_colonsp() -> Seq<u8> {
    seq![58u8, 32u8]  // ': '
}

pub open spec fn lit_malxml() -> Seq<u8> {
    seq![109u8, 97u8, 108u8, 102u8, 111u8, 114u8, 109u8, 101u8, 100u8, 32u8, 88u8, 77u8, 76u8, 58u8, 32u8]  // 'malformed XML: '
}

pub open spec fn lit_parse_pre() -> Seq<u8> {
    seq![112u8, 97u8, 114u8, 115u8, 101u8, 32u8, 101u8, 114u8, 114u8, 111u8, 114u8, 58u8, 32u8]  // 'parse error: '
}

pub open spec fn lit_transport_pre() -> Seq<u8> {
    seq![116u8, 114u8, 97u8, 110u8, 115u8, 112u8, 111u8, 114u8, 116u8, 32u8, 101u8, 114u8, 114u8, 111u8, 114u8, 58u8, 32u8]  // 'transport error: '
}

/// The model of a parse error.
pub ghost enum ParseErrorView {
    /// Malformed XML below the token grammar.
    Syntax { msg: Seq<u8>, row: int, col: int },
    /// Character data that is not a valid value of the announced type.
    InvalidValue { for_type: Seq<u8>, found: Seq<u8>, row: int, col: int },
    /// A tag or text where another construct was expected.
    Unexpected { expected: Seq<u8>, found: Option<Seq<u8>>, row: int, col: int },
}

#[derive(Debug)]
enum PEKind {
    Syntax { msg: Vec<u8>, row: usize, col: usize },
    InvalidValue { for_type: Vec<u8>, found: Vec<u8>, row: usize, col: usize },
    Unexpected { expected: Vec<u8>, found: Option<Vec<u8>>, row: usize, col: usize },
}

/// An error hit while decoding an XML-RPC document: it carries the expected
/// construct, what was actually found, and the row and column where.
#[derive(Debug)]
pub struct ParseError {
    kind: PEKind,
}

impl View for ParseError {
    type V = ParseErrorView;

    closed spec fn view(&self) -> ParseErrorView {
        match self.kind {
            PEKind::Syntax { ref msg, row, col } => ParseErrorView::Syntax {
                msg: msg@,
                row: row as int,
                col: col as int,
            },
            PEKind::InvalidValue { ref for_type, ref found, row, col } => ParseErrorView::InvalidValue {
                for_type: for_type@,
                found: found@,
                row: row as int,
                col: col as int,
            },
            PEKind::Unexpected { ref expected, ref found, row, col } => ParseErrorView::Unexpected {
                expected: expected@,
                found: match found {
                    Some(f) => Some(f@),
                    None => None,
                },
                row: row as int,
                col: col as int,
            },
        }
    }
}

/// The rendered text of a parse error, as `message_bytes` produces it.
pub open spec fn render_parse_error(v: ParseErrorView) -> Seq<u8> {
    match v {
        ParseErrorView::Syntax { msg, row, col } => lit_malxml() + dec_digits(row) + seq![58u8]
            + dec_digits(col) + seq![32u8] + msg,
        ParseErrorView::InvalidValue { for_type, found, row, col } => lit_invty() + for_type
            + lit_invat() + dec_digits(row) + seq![58u8] + dec_digits(col) + lit_colonsp() + found,
        ParseErrorView::Unexpected { expected, found, row, col } => lit_unexp() + dec_digits(row)
            + seq![58u8] + dec_digits(col) + lit_expopen() + expected + (match found {
            Some(f) => lit_foundsep() + f,
            None => Seq::<u8>::empty(),
        }) + seq![41u8],
    }
}

impl ParseError {
    pub(crate) fn syntax(msg: Vec<u8>, row: usize, col: usize) -> (r: ParseError)
        ensures
            r@ == (ParseErrorView::Syntax { msg: msg@, row: row as int, col: col as int }),
    {
        ParseError { kind: PEKind::Syntax { msg, row, col } }
    }

    pub(crate) fn invalid_value(for_type: Vec<u8>, found: Vec<u8>, row: usize, col: usize) -> (r:
        ParseError)
        ensures
            r@ == (ParseErrorView::InvalidValue {
                for_type: for_type@,
                found: found@,
                row: row as int,
                col: col as int,
            }),
    {
        ParseError { kind: PEKind::InvalidValue { for_type, found, row, col } }
    }

    pub(crate) fn unexpected(expected: Vec<u8>, found: Option<Vec<u8>>, row: usize, col: usize) -> (
        r: ParseError)
        ensures
            r@ == (ParseErrorView::Unexpected {
                expected: expected@,
                found: match found {
                    Some(f) => Some(f@),
                    None => None::<Seq<u8>>,
                },
                row: row as int,
                col: col as int,
            }),
    {
        ParseError { kind: PEKind::Unexpected { expected, found, row, col } }
    }

    /// Renders this error as text: the expected construct, what was found,
    /// and the position.
    pub fn message_bytes(&self) -> (r: Vec<u8>)
        ensures
            r@ == render_parse_error(self@),
    {
        let mut out: Vec<u8> = Vec::new();
        match &self.kind {
            PEKind::Syntax { msg, row, col } => {
                let l: [u8; 15] = [109, 97, 108, 102, 111, 114, 109, 101, 100, 32, 88, 77, 76, 58, 32];
                proof {
                    assert(l@ =~= lit_malxml());
                }
                push_slice(&mut out, l.as_slice());
                push_dec_u64(&mut out, *row as u64);
                out.push(58);
                push_dec_u64(&mut out, *col as u64);
                out.push(32);
                push_slice(&mut out, msg.as_slice());
                proof {
                    assert(out@ =~= render_parse_error(self@));
                }
            },
            PEKind::InvalidValue { for_type, found, row, col } => {
                let l1: [u8; 24] = [105, 110, 118, 97, 108, 105, 100, 32, 118, 97, 108, 117, 101, 32, 102, 111, 114, 32, 116, 121, 112, 101, 32, 39];
                let l2: [u8; 5] = [39, 32, 97, 116, 32];
                let l3: [u8; 2] = [58, 32];
                proof {
                    assert(l1@ =~= lit_invty());
                    assert(l2@ =~= lit_invat());
                    assert(l3@ =~= lit_colonsp());
                }
                push_slice(&mut out, l1.as_slice());
                push_slice(&mut out, for_type.as_slice());
                push_slice(&mut out, l2.as_slice());
                push_dec_u64(&mut out, *row as u64);
                out.push(58);
                push_dec_u64(&mut out, *col as u64);
                push_slice(&mut out, l3.as_slice());
                push_slice(&mut out, found.as_slice());
                proof {
                    assert(out@ =~= render_parse_error(self@));
                }
            },
            PEKind::Unexpected { expected, found, row, col } => {
                let l1: [u8; 18] = [117, 110, 101, 120, 112, 101, 99, 116, 101, 100, 32, 88, 77, 76, 32, 97, 116, 32];
                let l2: [u8; 11] = [32, 40, 101, 120, 112, 101, 99, 116, 101, 100, 32];
                let l3: [u8; 8] = [44, 32, 102, 111, 117, 110, 100, 32];
                proof {
                    assert(l1@ =~= lit_unexp());
                    assert(l2@ =~= lit_expopen());
                    assert(l3@ =~= lit_foundsep());
                }
                push_slice(&mut out, l1.as_slice());
                push_dec_u64(&mut out, *row as u64);
                out.push(58);
                push_dec_u64(&mut out, *col as u64);
                push_slice(&mut out, l2.as_slice());
                push_slice(&mut out, expected.as_slice());
                match found {
                    Some(f) => {
                        push_slice(&mut out, l3.as_slice());
                        push_slice(&mut out, f.as_slice());
                    },
                    None => {},
                }
                out.push(41);
                proof {
                    assert(out@ =~= render_parse_error(self@));
                }
            },
        }
        out
    }
}

/// The model of an error: one of the three non-overlapping kinds.
pub ghost enum ErrorView {
    Parse(ParseErrorView),
    Transport(Seq<u8>),
    Fault(FaultView),
}

#[derive(Debug)]
enum ErrorKindRepr {
    Parse(ParseError),
    Transport(Vec<u8>),
    Fault(Fault),
}

/// An error from performing an XML-RPC request: a transport failure, a
/// response that could not be decoded, or a `<fault>` reported by the
/// server. The kind is revealed through `fault` and `parse_error`.
#[derive(Debug)]
pub struct Error {
    kind: ErrorKindRepr,
}

impl View for Error {
    type V = ErrorView;

    closed spec fn view(&self) -> ErrorView {
        match self.kind {
            ErrorKindRepr::Parse(ref e) => ErrorView::Parse(e@),
            ErrorKindRepr::Transport(ref m) => ErrorView::Transport(m@),
            ErrorKindRepr::Fault(ref f) => ErrorView::Fault(f@),
        }
    }
}

impl Error {
    pub(crate) fn from_parse(e: ParseError) -> (r: Error)
        ensures
            r@ == ErrorView::Parse(e@),
    {
        Error { kind: ErrorKindRepr::Parse(e) }
    }

    pub(crate) fn from_transport(msg: Vec<u8>) -> (r: Error)
        ensures
            r@ == ErrorView::Transport(msg@),
    {
        Error { kind: ErrorKindRepr::Transport(msg) }
    }

    pub(crate) fn from_fault(f: Fault) -> (r: Error)
        ensures
            r@ == ErrorView::Fault(f@),
    {
        Error { kind: ErrorKindRepr::Fault(f) }
    }

    /// If this error is a server-reported `<fault>`, reveals it.
    pub fn fault(&self) -> (r: Option<&Fault>)
        ensures
            r matches Some(f) ==> self@ == ErrorView::Fault(f@),
            r is None <==> !(self@ is Fault),
    {
        match &self.kind {
            ErrorKindRepr::Fault(f) => Some(f),
            _ => None,
        }
    }

    /// If this error came from failing to decode a response, reveals the
    /// parse error.
    pub fn parse_error(&self) -> (r: Option<&ParseError>)
        ensures
            r matches Some(e) ==> self@ == ErrorView::Parse(e@),
            r is None <==> !(self@ is Parse),
    {
        match &self.kind {
            ErrorKindRepr::Parse(e) => Some(e),
            _ => None,
        }
    }
}

} // verus!
