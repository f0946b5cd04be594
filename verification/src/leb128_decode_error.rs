use vstd::prelude::*;
use vstd::string::StringExecFns;

verus! {

/// Reason why a LEB128 byte sequence could not be decoded.
#[derive(Clone, Copy, Debug, PartialEq, Eq, Structural)]
pub enum Leb128DecodeErrorKind {
    /// Every visible byte carries a continuation flag and the value may still
    /// be completed by more input.
    Incomplete,
    /// The bytes can never form a value of the target width.
    Malformed,
    /// Strict decoding found a redundant terminal byte.
    NonCanonical,
}

impl Leb128DecodeErrorKind {
    /// Human-readable description of the kind.
    pub open spec fn text(self) -> Seq<char> {
        match self {
            Leb128DecodeErrorKind::Incomplete => "incomplete LEB128 integer"@,
            Leb128DecodeErrorKind::Malformed => "malformed LEB128 integer"@,
            Leb128DecodeErrorKind::NonCanonical => "non-canonical LEB128 integer"@,
        }
    }

    /// Returns the human-readable description of the kind.
    pub fn as_str(&self) -> (text: &'static str)
        ensures
            text@ == self.text(),
    {
        match self {
            Leb128DecodeErrorKind::Incomplete => "incomplete LEB128 integer",
            Leb128DecodeErrorKind::Malformed => "malformed LEB128 integer",
            Leb128DecodeErrorKind::NonCanonical => "non-canonical LEB128 integer",
        }
    }

    /// Returns the human-readable description of the kind as a `String`.
    pub fn to_string(&self) -> (text: String)
        ensures
            text@ == self.text(),
    {
        String::from_str(self.as_str())
    }
}

/// Decimal digits of `n`, most significant first.
pub open spec fn decimal_digits(n: nat) -> Seq<char>
    decreases n,
{
    if n < 10 {
        seq![(n + 48) as char]
    } else {
        decimal_digits(n / 10).push((n % 10 + 48) as char)
    }
}

/// The decimal digit `d` as a one-character string.
fn digit_text(d: usize) -> (text: &'static str)
    requires
        d < 10,
    ensures
        text@ == seq![(d + 48) as char],
{
    if d == 0 {
        proof {
            reveal_strlit("0");
        }
        "0"
    } else if d == 1 {
        proof {
            reveal_strlit("1");
        }
        "1"
    } else if d == 2 {
        proof {
            reveal_strlit("2");
        }
        "2"
    } else if d == 3 {
        proof {
            reveal_strlit("3");
        }
        "3"
    } else if d == 4 {
        proof {
            reveal_strlit("4");
        }
        "4"
    } else if d == 5 {
        proof {
            reveal_strlit("5");
        }
        "5"
    } else if d == 6 {
        proof {
            reveal_strlit("6");
        }
        "6"
    } else if d == 7 {
        proof {
            reveal_strlit("7");
        }
        "7"
    } else if d == 8 {
        proof {
            reveal_strlit("8");
        }
        "8"
    } else {
        proof {
            reveal_strlit("9");
        }
        "9"
    }
}

/// The decimal digits of `n`, as `usize::to_string` writes them.
fn decimal_text(n: usize) -> (text: String)
    ensures
        text@ == decimal_digits(n as nat),
    decreases n,
{
    if n < 10 {
        String::from_str(digit_text(n))
    } else {
        let mut text = decimal_text(n / 10);
        text.append(digit_text(n % 10));
        text
    }
}

/// Plain description of a decode error, used to state contracts.
pub struct Leb128DecodeErrorView {
    pub kind: Leb128DecodeErrorKind,
    pub start_index: usize,
    pub error_index: usize,
    pub consumed: Option<usize>,
    pub required: Option<usize>,
    pub available: Option<usize>,
}

impl Leb128DecodeErrorView {
    /// The error describing an incomplete prefix of `available` bytes that
    /// needs at least `required` bytes in total.
    pub open spec fn incomplete(start_index: usize, required: usize, available: usize) -> Self {
        Leb128DecodeErrorView {
            kind: Leb128DecodeErrorKind::Incomplete,
            start_index,
            error_index: (start_index + available) as usize,
            consumed: None,
            required: Some(required),
            available: Some(available),
        }
    }

    /// The error describing malformed input detected at `error_index`.
    pub open spec fn malformed(start_index: usize, error_index: usize, consumed: usize) -> Self {
        Leb128DecodeErrorView {
            kind: Leb128DecodeErrorKind::Malformed,
            start_index,
            error_index,
            consumed: Some(consumed),
            required: None,
            available: None,
        }
    }

    /// The error describing a non-canonical value of `consumed` bytes.
    pub open spec fn noncanonical(start_index: usize, consumed: usize) -> Self {
        Leb128DecodeErrorView {
            kind: Leb128DecodeErrorKind::NonCanonical,
            start_index,
            error_index: (start_index + consumed - 1) as usize,
            consumed: Some(consumed),
            required: None,
            available: None,
        }
    }

    /// Human-readable message of the error: the kind, the start index, and
    /// either the retry bound and the available bytes with the next byte
    /// boundary, or the detection index and the consumed bytes.
    pub open spec fn message(self) -> Seq<char> {
        if self.kind == Leb128DecodeErrorKind::Incomplete {
            self.kind.text() + " at byte "@ + decimal_digits(self.start_index as nat)
                + ": need at least "@ + decimal_digits(self.required->0 as nat) + " bytes, only "@
                + decimal_digits(self.available->0 as nat) + " available (next byte boundary "@
                + decimal_digits(self.error_index as nat) + ")"@
        } else {
            self.kind.text() + " at byte "@ + decimal_digits(self.start_index as nat)
                + ": detected at byte "@ + decimal_digits(self.error_index as nat)
                + " after consuming "@ + decimal_digits(self.consumed->0 as nat) + " bytes"@
        }
    }

    /// What every decode error satisfies: an incomplete error carries a
    /// retry bound above the available count and points one past the
    /// available bytes; an invalid error carries a non-zero consumed count
    /// and points inside the consumed span.
    pub open spec fn wf(self) -> bool {
        match self.kind {
            Leb128DecodeErrorKind::Incomplete => {
                &&& self.consumed is None
                &&& self.required is Some
                &&& self.available is Some
                &&& self.required->0 > self.available->0
                &&& self.error_index == self.start_index + self.available->0
            },
            Leb128DecodeErrorKind::Malformed => {
                &&& self.consumed is Some
                &&& self.required is None
                &&& self.available is None
                &&& self.consumed->0 > 0
                &&& self.start_index <= self.error_index
                &&& self.error_index <= self.start_index + self.consumed->0 - 1
            },
            Leb128DecodeErrorKind::NonCanonical => {
                &&& self.consumed is Some
                &&& self.required is None
                &&& self.available is None
                &&& self.consumed->0 > 0
                &&& self.error_index == self.start_index + self.consumed->0 - 1
            },
        }
    }
}

/// Error reported while decoding a LEB128 integer from a byte buffer.
#[derive(Clone, Copy, Debug, PartialEq, Eq)]
pub struct Leb128DecodeError {
    kind: Leb128DecodeErrorKind,
    start_index: usize,
    error_index: usize,
    consumed: Option<usize>,
    required: Option<usize>,
    available: Option<usize>,
}

impl View for Leb128DecodeError {
    type V = Leb128DecodeErrorView;

    closed spec fn view(&self) -> Leb128DecodeErrorView {
        Leb128DecodeErrorView {
            kind: self.kind,
            start_index: self.start_index,
            error_index: self.error_index,
            consumed: self.consumed,
            required: self.required,
            available: self.available,
        }
    }
}

impl Leb128DecodeError {
    #[verifier::type_invariant]
    closed spec fn well_formed(self) -> bool {
        self@.wf()
    }

    /// Creates an incomplete-input decoding error.
    ///
    /// `required` is a lower bound for the total bytes that must be readable
    /// from `start_index` before decoding can make progress; it exceeds
    /// `available`, the bytes currently readable from there.
    pub fn incomplete(start_index: usize, required: usize, available: usize) -> (e: Self)
        requires
            required > available,
            start_index + available <= usize::MAX,
        ensures
            e@ == Leb128DecodeErrorView::incomplete(start_index, required, available),
    {
        Leb128DecodeError {
            kind: Leb128DecodeErrorKind::Incomplete,
            start_index,
            error_index: add_offset(start_index, available),
            consumed: None,
            required: Some(required),
            available: Some(available),
        }
    }

    /// Creates a malformed-input decoding error detected at `error_index`,
    /// which lies inside the `consumed` bytes that start at `start_index`.
    pub fn malformed(start_index: usize, error_index: usize, consumed: usize) -> (e: Self)
        requires
            consumed > 0,
            start_index + consumed - 1 <= usize::MAX,
            start_index <= error_index <= start_index + consumed - 1,
        ensures
            e@ == Leb128DecodeErrorView::malformed(start_index, error_index, consumed),
    {
        assert_error_index_in_consumed_span(start_index, error_index, consumed);
        Leb128DecodeError {
            kind: Leb128DecodeErrorKind::Malformed,
            start_index,
            error_index,
            consumed: Some(consumed),
            required: None,
            available: None,
        }
    }

    /// Creates a non-canonical-input decoding error for `consumed` bytes
    /// starting at `start_index`; the error index is the last consumed byte.
    pub fn noncanonical(start_index: usize, consumed: usize) -> (e: Self)
        requires
            consumed > 0,
            start_index + consumed - 1 <= usize::MAX,
        ensures
            e@ == Leb128DecodeErrorView::noncanonical(start_index, consumed),
    {
        Leb128DecodeError {
            kind: Leb128DecodeErrorKind::NonCanonical,
            start_index,
            error_index: last_consumed_index(start_index, consumed),
            consumed: Some(consumed),
            required: None,
            available: None,
        }
    }

    /// Returns the decoding error kind.
    pub fn kind(self) -> (k: Leb128DecodeErrorKind)
        ensures
            k == self@.kind,
    {
        self.kind
    }

    /// Returns the absolute byte index where the attempted value starts.
    pub fn start_index(self) -> (i: usize)
        ensures
            i == self@.start_index,
    {
        self.start_index
    }

    /// Returns the absolute byte index where the error became observable.
    /// For incomplete input this is the one-past-available boundary.
    pub fn error_index(self) -> (i: usize)
        ensures
            i == self@.error_index,
    {
        self.error_index
    }

    /// Returns the bytes that may be consumed after an invalid-input error,
    /// or `None` for incomplete input.
    pub fn consumed(self) -> (c: Option<usize>)
        ensures
            c == self@.consumed,
            c is Some <==> self@.kind != Leb128DecodeErrorKind::Incomplete,
            c is Some ==> c->0 > 0,
    {
        proof {
            use_type_invariant(&self);
        }
        self.consumed
    }

    /// Returns whether this error reports an incomplete input prefix.
    pub fn is_incomplete(self) -> (b: bool)
        ensures
            b == (self@.kind == Leb128DecodeErrorKind::Incomplete),
    {
        matches!(self.kind, Leb128DecodeErrorKind::Incomplete)
    }

    /// Returns whether this error reports malformed input.
    pub fn is_malformed(self) -> (b: bool)
        ensures
            b == (self@.kind == Leb128DecodeErrorKind::Malformed),
    {
        matches!(self.kind, Leb128DecodeErrorKind::Malformed)
    }

    /// Returns whether this error reports a non-canonical representation.
    pub fn is_noncanonical(self) -> (b: bool)
        ensures
            b == (self@.kind == Leb128DecodeErrorKind::NonCanonical),
    {
        matches!(self.kind, Leb128DecodeErrorKind::NonCanonical)
    }

    /// Returns a lower bound for the total bytes required to continue an
    /// incomplete decode, or `None` for invalid input.
    pub fn required(self) -> (r: Option<usize>)
        ensures
            r == self@.required,
            r is Some <==> self@.kind == Leb128DecodeErrorKind::Incomplete,
            r is Some ==> r->0 > 0,
    {
        proof {
            use_type_invariant(&self);
        }
        self.required
    }

    /// Returns the additional bytes required to continue an incomplete
    /// decode, `required - available`, which is never zero; `None` for
    /// invalid input.
    pub fn additional(self) -> (a: Option<usize>)
        ensures
            a is Some <==> self@.kind == Leb128DecodeErrorKind::Incomplete,
            a is Some ==> a->0 == self@.required->0 - self@.available->0,
            a is Some ==> a->0 > 0,
    {
        proof {
            use_type_invariant(&self);
        }
        match (self.required, self.available) {
            (Some(required), Some(available)) => Some(required - available),
            _ => None,
        }
    }

    /// Returns the bytes available for an incomplete value, or `None` for
    /// invalid input.
    pub fn available(self) -> (a: Option<usize>)
        ensures
            a == self@.available,
            a is Some <==> self@.kind == Leb128DecodeErrorKind::Incomplete,
    {
        proof {
            use_type_invariant(&self);
        }
        self.available
    }
}

impl Leb128DecodeError {
    /// Returns the human-readable message of the error.
    pub fn to_string(&self) -> (text: String)
        ensures
            text@ == self@.message(),
    {
        proof {
            use_type_invariant(self);
        }
        let mut text = self.kind.to_string();
        text.append(" at byte ");
        text.append(decimal_text(self.start_index).as_str());
        match (self.required, self.available, self.consumed) {
            (Some(required), Some(available), _) => {
                text.append(": need at least ");
                text.append(decimal_text(required).as_str());
                text.append(" bytes, only ");
                text.append(decimal_text(available).as_str());
                text.append(" available (next byte boundary ");
                text.append(decimal_text(self.error_index).as_str());
                text.append(")");
            },
            (_, _, Some(consumed)) => {
                text.append(": detected at byte ");
                text.append(decimal_text(self.error_index).as_str());
                text.append(" after consuming ");
                text.append(decimal_text(consumed).as_str());
                text.append(" bytes");
            },
            _ => {},
        }
        text
    }
}

/// Adds a byte offset to an index.
fn add_offset(index: usize, offset: usize) -> (r: usize)
    requires
        index + offset <= usize::MAX,
    ensures
        r == index + offset,
{
    index + offset
}

/// Returns the absolute index of the last of `consumed` bytes that start at
/// `start_index`.
fn last_consumed_index(start_index: usize, consumed: usize) -> (r: usize)
    requires
        consumed > 0,
        start_index + consumed - 1 <= usize::MAX,
    ensures
        r == start_index + consumed - 1,
{
    add_offset(start_index, consumed - 1)
}

/// Checks that an error index lies inside the consumed byte span; the
/// precondition is exactly that condition.
fn assert_error_index_in_consumed_span(start_index: usize, error_index: usize, consumed: usize)
    requires
        consumed > 0,
        start_index + consumed - 1 <= usize::MAX,
        start_index <= error_index <= start_index + consumed - 1,
{
    let last_index = last_consumed_index(start_index, consumed);
    assert(start_index <= error_index <= last_index);
}

} // verus!
