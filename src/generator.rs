//! The enumerator: holds the alphabet, the terminal value and the current value, and
//! hands out one decorated value per pull.

use vstd::prelude::*;
use vstd::string::*;
use vstd::utf8::encode_utf8;
use crate::bound::{saturated, saturating_span_count, span_count};
use crate::alphabet::{next_symbol, sorted_alphabet};
use crate::error::DictionaryGeneratorError;
use crate::odometer::{
    advanced, alphabet_wf, increment, reversed, strictly_ascending, successor_symbol, value_over,
};
use crate::text::{lemma_encode_concat, lemma_encode_push, push_char, put_bytes, put_char, reversed_chars, utf8_width};

verus! {

/// Every string over an alphabet, in odometer order, from a current value up to and
/// including a terminal value, each decorated with an optional prefix and suffix.
pub struct DictionaryGenerator {
    alphabet: Vec<char>,
    last_value: Vec<char>,
    prefix: Option<String>,
    suffix: Option<String>,
    current_value: Option<Vec<char>>,
}

/// The decoration text held in an optional string (none stands for the empty text).
pub open spec fn decoration(d: Option<Seq<char>>) -> Seq<char> {
    match d {
        Some(s) => s,
        None => Seq::empty(),
    }
}

/// What one pull renders for a current value.
pub open spec fn decorate_value(prefix: Seq<char>, v: Seq<char>, suffix: Seq<char>) -> Seq<char> {
    prefix + reversed(v) + suffix
}

/// What one buffer pull writes: the rendered text in UTF-8, then a newline byte.
pub open spec fn record_bytes(text: Seq<char>) -> Seq<u8> {
    encode_utf8(text) + seq![10u8]
}

impl DictionaryGenerator {
    /// What the invariant says, in terms of the observers.
    pub proof fn lemma_wf_parts(&self)
        requires
            self.wf(),
        ensures
            alphabet_wf(self.spec_alphabet()),
            value_over(self.spec_alphabet(), self.spec_terminal()),
            self.spec_current() is Some ==> value_over(self.spec_alphabet(), self.spec_current()->0),
    {
    }

    /// The alphabet, ascending.
    pub closed spec fn spec_alphabet(&self) -> Seq<char> {
        self.alphabet@
    }

    /// The terminal value, least-significant symbol first.
    pub closed spec fn spec_terminal(&self) -> Seq<char> {
        self.last_value@
    }

    /// The current value, least-significant symbol first; none once exhausted.
    pub closed spec fn spec_current(&self) -> Option<Seq<char>> {
        match self.current_value {
            Some(v) => Some(v@),
            None => None,
        }
    }

    /// The prefix put before every value (empty when there is none).
    pub closed spec fn spec_prefix(&self) -> Seq<char> {
        match self.prefix {
            Some(p) => p@,
            None => Seq::empty(),
        }
    }

    /// The suffix put after every value (empty when there is none).
    pub closed spec fn spec_suffix(&self) -> Seq<char> {
        match self.suffix {
            Some(s) => s@,
            None => Seq::empty(),
        }
    }

    /// The generator's invariant: a usable alphabet, and values made of its symbols.
    pub closed spec fn wf(&self) -> bool {
        &&& alphabet_wf(self.alphabet@)
        &&& value_over(self.alphabet@, self.last_value@)
        &&& (match self.current_value {
            Some(v) => value_over(self.alphabet@, v@),
            None => true,
        })
    }

    /// The text that the next pull hands out, if any.
    pub open spec fn rendered(&self) -> Option<Seq<char>> {
        match self.spec_current() {
            Some(v) => Some(decorate_value(self.spec_prefix(), v, self.spec_suffix())),
            None => None,
        }
    }

    /// The bytes that the next buffer pull writes, if any.
    pub open spec fn record(&self) -> Option<Seq<u8>> {
        match self.rendered() {
            Some(t) => Some(record_bytes(t)),
            None => None,
        }
    }

    /// The ceiling on the number of values still to come, the current one included:
    /// zero once exhausted.
    pub open spec fn upper_bound(&self) -> int {
        match self.spec_current() {
            Some(v) => saturated(
                span_count(self.spec_alphabet().len() as int, v.len() as int, self.spec_terminal().len() as int),
            ),
            None => 0,
        }
    }

    /// `next` is `self` after one advance step.
    pub open spec fn steps_to(&self, next: &Self) -> bool {
        &&& self.same_setup(next)
        &&& next.spec_current() == advanced(
            self.spec_alphabet(),
            self.spec_terminal(),
            self.spec_current(),
        )
    }

    /// Alphabet, terminal value and decorations agree.
    pub open spec fn same_setup(&self, other: &Self) -> bool {
        &&& other.spec_alphabet() == self.spec_alphabet()
        &&& other.spec_terminal() == self.spec_terminal()
        &&& other.spec_prefix() == self.spec_prefix()
        &&& other.spec_suffix() == self.spec_suffix()
    }

    /// A generator whose alphabet holds the symbols of `alphabet`, positioned at `init`,
    /// that stops after `end`. Fails exactly when `alphabet` is empty.
    pub fn new(alphabet: &str, init: &str, end: &str) -> (r: Result<Self, DictionaryGeneratorError>)
        requires
            alphabet@.len() > 0 ==> value_over(alphabet@, init@),
            alphabet@.len() > 0 ==> value_over(alphabet@, end@),
        ensures
            r is Ok <==> alphabet@.len() > 0,
            r is Err ==> r == Err::<Self, _>(DictionaryGeneratorError::AlphabetEmpty),
            r is Ok ==> ({
                let g = r->Ok_0;
                &&& g.wf()
                &&& strictly_ascending(g.spec_alphabet())
                &&& forall|c: char| g.spec_alphabet().contains(c) <==> alphabet@.contains(c)
                &&& g.spec_terminal() == reversed(end@)
                &&& g.spec_current() == Some(reversed(init@))
                &&& g.spec_prefix() == Seq::<char>::empty()
                &&& g.spec_suffix() == Seq::<char>::empty()
            }),
    {
        let alpha = sorted_alphabet(alphabet);
        if alpha.len() == 0 {
            assert(!alphabet@.contains(alphabet@[0]) ==> alphabet@.len() == 0);
            return Err(DictionaryGeneratorError::AlphabetEmpty);
        }
        assert(alphabet@.len() > 0) by {
            assert(alpha@.contains(alpha@[0]));
        }
        let last_value = reversed_chars(end);
        let current_value = reversed_chars(init);
        assert forall|i: int| 0 <= i < last_value@.len() implies alpha@.contains(#[trigger] last_value@[i]) by {
            assert(last_value@[i] == end@[end@.len() - 1 - i]);
        }
        assert forall|i: int| 0 <= i < current_value@.len() implies alpha@.contains(#[trigger] current_value@[i]) by {
            assert(current_value@[i] == init@[init@.len() - 1 - i]);
        }
        Ok(DictionaryGenerator { alphabet: alpha, last_value, prefix: None, suffix: None, current_value: Some(current_value) })
    }

    /// A generator that starts at the single smallest symbol of the alphabet.
    pub fn new_from_start(alphabet: &str, end: &str) -> (r: Result<Self, DictionaryGeneratorError>)
        requires
            alphabet@.len() > 0 ==> value_over(alphabet@, end@),
        ensures
            r is Ok <==> alphabet@.len() > 0,
            r is Err ==> r == Err::<Self, _>(DictionaryGeneratorError::AlphabetEmpty),
            r is Ok ==> ({
                let g = r->Ok_0;
                &&& g.wf()
                &&& strictly_ascending(g.spec_alphabet())
                &&& forall|c: char| g.spec_alphabet().contains(c) <==> alphabet@.contains(c)
                &&& g.spec_terminal() == reversed(end@)
                &&& g.spec_current() == Some(seq![g.spec_alphabet()[0]])
                &&& g.spec_prefix() == Seq::<char>::empty()
                &&& g.spec_suffix() == Seq::<char>::empty()
            }),
    {
        let alpha = sorted_alphabet(alphabet);
        if alpha.len() == 0 {
            assert(!alphabet@.contains(alphabet@[0]) ==> alphabet@.len() == 0);
            return Err(DictionaryGeneratorError::AlphabetEmpty);
        }
        assert(alphabet@.len() > 0) by {
            assert(alpha@.contains(alpha@[0]));
        }
        let last_value = reversed_chars(end);
        assert forall|i: int| 0 <= i < last_value@.len() implies alpha@.contains(#[trigger] last_value@[i]) by {
            assert(last_value@[i] == end@[end@.len() - 1 - i]);
        }
        let first = alpha[0];
        let current_value = vec![first];
        assert(current_value@ =~= seq![alpha@[0]]);
        assert(alpha@.contains(alpha@[0]));
        Ok(DictionaryGenerator { alphabet: alpha, last_value, prefix: None, suffix: None, current_value: Some(current_value) })
    }

    /// The same generator with every value preceded by `prefix`; an empty `prefix`
    /// leaves it unchanged.
    pub fn with_prefix(self, prefix: &str) -> (r: Self)
        ensures
            r.wf() == self.wf(),
            r.spec_alphabet() == self.spec_alphabet(),
            r.spec_terminal() == self.spec_terminal(),
            r.spec_current() == self.spec_current(),
            r.spec_suffix() == self.spec_suffix(),
            r.spec_prefix() == (if prefix@.len() == 0 { self.spec_prefix() } else { prefix@ }),
    {
        if prefix.is_empty() {
            return self;
        }
        DictionaryGenerator { prefix: Some(prefix.to_owned()), ..self }
    }

    /// The same generator with every value followed by `suffix`; an empty `suffix`
    /// leaves it unchanged.
    pub fn with_suffix(self, suffix: &str) -> (r: Self)
        ensures
            r.wf() == self.wf(),
            r.spec_alphabet() == self.spec_alphabet(),
            r.spec_terminal() == self.spec_terminal(),
            r.spec_current() == self.spec_current(),
            r.spec_prefix() == self.spec_prefix(),
            r.spec_suffix() == (if suffix@.len() == 0 { self.spec_suffix() } else { suffix@ }),
    {
        if suffix.is_empty() {
            return self;
        }
        DictionaryGenerator { suffix: Some(suffix.to_owned()), ..self }
    }

    /// Whether the current value is the terminal one.
    fn is_last(&self) -> (r: bool)
        ensures
            r == (self.spec_current() == Some(self.spec_terminal())),
    {
        match &self.current_value {
            Some(v) => {
                let mut same = v.len() == self.last_value.len();
                let mut i: usize = 0;
                while same && i < v.len()
                    invariant
                        same ==> v@.len() == self.last_value@.len(),
                        same ==> forall|k: int| 0 <= k < i ==> v@[k] == self.last_value@[k],
                        !same ==> v@ != self.last_value@,
                        i <= v@.len(),
                    decreases v@.len() - i,
                {
                    if v[i] != self.last_value[i] {
                        same = false;
                    }
                    i = i + 1;
                }
                if same {
                    assert(v@ =~= self.last_value@);
                }
                same
            },
            None => false,
        }
    }

    /// One advance step: past the terminal value the generator is exhausted, otherwise
    /// the current value is incremented.
    fn update(&mut self)
        requires
            old(self).wf(),
        ensures
            final(self).wf(),
            old(self).steps_to(final(self)),
    {
        if self.is_last() {
            self.current_value = None;
            return;
        }
        let alphabet = &self.alphabet;
        match &mut self.current_value {
            None => {},
            Some(v) => {
                let ghost v0 = v@;
                let first = alphabet[0];
                let len = v.len();
                let mut k: usize = 0;
                let mut done = false;
                assert(v0.subrange(0, len as int) =~= v0);
                assert(v@.subrange(0, 0) =~= Seq::<char>::empty());
                while !done && k < len
                    invariant
                        alphabet_wf(alphabet@),
                        value_over(alphabet@, v0),
                        len == v0.len(),
                        k <= len,
                        first == alphabet@[0],
                        done ==> increment(alphabet@, v0) == v@ && value_over(alphabet@, v@),
                        !done ==> v@.len() == len,
                        !done ==> forall|j: int| 0 <= j < k ==> #[trigger] v@[j] == first,
                        !done ==> v@.subrange(k as int, len as int) == v0.subrange(k as int, len as int),
                        !done ==> increment(alphabet@, v0) == v@.subrange(0, k as int) + increment(
                            alphabet@,
                            v0.subrange(k as int, len as int),
                        ),
                    decreases len - k + (if done { 0int } else { 1int }),
                {
                    let ghost rest = v0.subrange(k as int, len as int);
                    assert(rest[0] == v@[k as int]);
                    let c = v[k];
                    match next_symbol(alphabet, c) {
                        Some(n) => {
                            proof {
                                assert(increment(alphabet@, rest) == rest.update(0, n));
                            }
                            v.set(k, n);
                            assert(increment(alphabet@, v0) =~= v@);
                            proof {
                                assert forall|i: int| 0 <= i < v@.len() implies alphabet@.contains(#[trigger] v@[i]) by {
                                    if i == k {
                                        lemma_successor_member(alphabet@, c);
                                    } else if i > k {
                                        assert(v@[i] == v0[i]);
                                    } else {
                                        assert(alphabet@[0] == v@[i]);
                                    }
                                }
                            }
                            done = true;
                        },
                        None => {
                            assert(rest.drop_first() =~= v0.subrange(k + 1, len as int));
                            v.set(k, first);
                            k = k + 1;
                            assert(v@.subrange(0, k as int) =~= v@.subrange(0, k - 1) + seq![first]);
                            assert(v@.subrange(k as int, len as int) =~= v0.subrange(k as int, len as int));
                        },
                    }
                }
                if !done {
                    assert(v0.subrange(len as int, len as int) =~= Seq::<char>::empty());
                    assert(v@.subrange(0, len as int) =~= v@);
                    v.push(first);
                    assert(increment(alphabet@, v0) =~= v@);
                    assert forall|i: int| 0 <= i < v@.len() implies alphabet@.contains(#[trigger] v@[i]) by {
                        assert(v@[i] == alphabet@[0]);
                    }
                }
            },
        }
    }

    /// Writes the decorated current value into `current`, replacing what it held; when
    /// exhausted, leaves it empty and returns none.
    fn current_in(&self, current: &mut String) -> (r: Option<()>)
        ensures
            r is Some <==> self.spec_current() is Some,
            final(current)@ == decoration(self.rendered()),
    {
        *current = String::new();
        let v = match &self.current_value {
            Some(v) => v,
            None => {
                return None;
            },
        };
        if let Some(prefix) = &self.prefix {
            current.append(prefix.as_str());
        }
        let len = v.len();
        let mut m: usize = 0;
        while m < len
            invariant
                len == v@.len(),
                m <= len,
                current@ == self.spec_prefix() + reversed(v@).subrange(0, m as int),
            decreases len - m,
        {
            push_char(current, v[len - 1 - m]);
            m = m + 1;
            assert(current@ =~= self.spec_prefix() + reversed(v@).subrange(0, m as int));
        }
        assert(reversed(v@).subrange(0, len as int) =~= reversed(v@));
        if let Some(suffix) = &self.suffix {
            current.append(suffix.as_str());
        }
        Some(())
    }

    /// The decorated current value, or none once exhausted.
    fn current(&self) -> (r: Option<String>)
        ensures
            match r {
                Some(s) => self.rendered() == Some(s@),
                None => self.rendered() is None,
            },
    {
        let mut current = String::new();
        match self.current_in(&mut current) {
            Some(()) => Some(current),
            None => None,
        }
    }

    /// Pulls one value: hands out the decorated current value and advances; none once
    /// exhausted, and then nothing changes.
    pub fn next(&mut self) -> (r: Option<String>)
        requires
            old(self).wf(),
        ensures
            final(self).wf(),
            old(self).steps_to(final(self)),
            match r {
                Some(s) => old(self).rendered() == Some(s@),
                None => old(self).rendered() is None,
            },
    {
        let r = self.current();
        self.update();
        r
    }

    /// Pulls one value into `current`, replacing what it held, and advances; returns none
    /// and leaves `current` empty once exhausted.
    pub fn next_in(&mut self, current: &mut String) -> (r: Option<()>)
        requires
            old(self).wf(),
        ensures
            final(self).wf(),
            old(self).steps_to(final(self)),
            r is Some <==> old(self).spec_current() is Some,
            final(current)@ == decoration(old(self).rendered()),
    {
        self.current_in(current)?;
        self.update();
        Some(())
    }

    /// Moves the current value to `init`, also after exhaustion; the alphabet, terminal
    /// value and decorations stay.
    pub fn reset_starting_in(&mut self, init: &str)
        requires
            old(self).wf(),
            value_over(old(self).spec_alphabet(), init@),
        ensures
            final(self).wf(),
            old(self).same_setup(final(self)),
            final(self).spec_current() == Some(reversed(init@)),
    {
        let v = reversed_chars(init);
        assert forall|i: int| 0 <= i < v@.len() implies self.alphabet@.contains(#[trigger] v@[i]) by {
            assert(v@[i] == init@[init@.len() - 1 - i]);
        }
        self.current_value = Some(v);
    }

    /// Pulls one value as bytes: writes the decorated current value in UTF-8 and a
    /// newline at the start of `buf`, advances, and returns the number of bytes written.
    /// Returns 0 once exhausted. When the record does not fit, fails with
    /// `BufferTooSmall` and changes nothing.
    pub fn read(&mut self, buf: &mut [u8]) -> (r: Result<usize, DictionaryGeneratorError>)
        requires
            old(self).wf(),
        ensures
            final(self).wf(),
            match old(self).record() {
                None => r == Ok::<usize, DictionaryGeneratorError>(0) && final(buf)@ == old(buf)@
                    && *final(self) == *old(self),
                Some(rec) => if rec.len() <= old(buf)@.len() {
                    &&& r == Ok::<usize, DictionaryGeneratorError>(rec.len() as usize)
                    &&& final(buf)@ == rec + old(buf)@.subrange(rec.len() as int, old(buf)@.len() as int)
                    &&& old(self).steps_to(final(self))
                } else {
                    &&& r == Err::<usize, DictionaryGeneratorError>(DictionaryGeneratorError::BufferTooSmall)
                    &&& final(buf)@ == old(buf)@
                    &&& *final(self) == *old(self)
                },
            },
    {
        let v = match &self.current_value {
            Some(v) => v,
            None => {
                return Ok(0);
            },
        };
        let ghost pre = self.spec_prefix();
        let ghost suf = self.spec_suffix();
        let ghost text = reversed(v@);
        let ghost b0 = buf@;
        let empty: &str = "";
        let prefix_bytes: &[u8] = match &self.prefix {
            Some(p) => p.as_str().as_bytes(),
            None => empty.as_bytes(),
        };
        let suffix_bytes: &[u8] = match &self.suffix {
            Some(s) => s.as_str().as_bytes(),
            None => empty.as_bytes(),
        };
        proof {
            reveal_strlit("");
            assert(encode_utf8(Seq::<char>::empty()) =~= Seq::<u8>::empty());
        }
        assert(prefix_bytes@ == encode_utf8(pre));
        assert(suffix_bytes@ == encode_utf8(suf));
        proof {
            lemma_encode_concat(pre + text, suf);
            lemma_encode_concat(pre, text);
        }
        let ghost whole = decorate_value(pre, v@, suf);
        assert(encode_utf8(whole) == encode_utf8(pre) + encode_utf8(text) + encode_utf8(suf));
        assert(self.record() == Some(record_bytes(whole)));
        assert(record_bytes(whole) =~= prefix_bytes@ + encode_utf8(text) + suffix_bytes@ + seq![10u8]);
        match put_record(buf, prefix_bytes, v, suffix_bytes) {
            Some(n) => {
                self.update();
                Ok(n)
            },
            None => Err(DictionaryGeneratorError::BufferTooSmall),
        }
    }

    /// Bounds on the number of values still to come, the current one included: at least
    /// one until exhausted, and at most the count of all strings whose length lies between
    /// the current value's and the terminal value's.
    pub fn size_hint(&self) -> (r: (usize, Option<usize>))
        requires
            self.wf(),
        ensures
            r.0 == (if self.spec_current() is Some { 1usize } else { 0usize }),
            r.1 == Some(self.upper_bound() as usize),
    {
        match &self.current_value {
            Some(v) => (1, Some(saturating_span_count(self.alphabet.len(), v.len(), self.last_value.len()))),
            None => (0, Some(0)),
        }
    }
}

/// Writes `pre`, `v`'s visible form in UTF-8, `suf` and a newline at the start of `buf`
/// and returns their length; when they do not fit, returns none and leaves `buf` alone.
fn put_record(buf: &mut [u8], pre: &[u8], v: &Vec<char>, suf: &[u8]) -> (r: Option<usize>)
    ensures
        ({
            let rec = pre@ + encode_utf8(reversed(v@)) + suf@ + seq![10u8];
            if rec.len() <= old(buf)@.len() {
                &&& r == Some(rec.len() as usize)
                &&& final(buf)@ == rec + old(buf)@.subrange(rec.len() as int, old(buf)@.len() as int)
            } else {
                &&& r is None
                &&& final(buf)@ == old(buf)@
            }
        }),
{
    let ghost b0 = buf@;
    let ghost enc = encode_utf8(reversed(v@));
    let room = buf.len();
    let total = match encoded_len(v, pre.len()) {
        Some(t) => t,
        None => {
            return None;
        },
    };
    let needed = match total.checked_add(suf.len()) {
        Some(t) => t.checked_add(1),
        None => None,
    };
    let needed = match needed {
        Some(n) => n,
        None => {
            return None;
        },
    };
    if room < needed {
        return None;
    }
    put_bytes(buf, 0, pre);
    let at = put_value(buf, pre.len(), v);
    put_bytes(buf, at, suf);
    let at = at + suf.len();
    buf[at] = 10u8;
    let at = at + 1;
    assert(buf@ =~= pre@ + enc + suf@ + seq![10u8] + b0.subrange(at as int, b0.len() as int));
    Some(at)
}

/// `base` plus the number of bytes of `v`'s visible form in UTF-8; none when that sum
/// does not fit in a `usize`.
fn encoded_len(v: &Vec<char>, base: usize) -> (r: Option<usize>)
    ensures
        match r {
            Some(n) => n == base + encode_utf8(reversed(v@)).len(),
            None => base + encode_utf8(reversed(v@)).len() > usize::MAX,
        },
{
    let ghost text = reversed(v@);
    let len = v.len();
    let mut total: usize = base;
    let mut m: usize = 0;
    while m < len
        invariant
            len == v@.len(),
            text == reversed(v@),
            m <= len,
            total == base + encode_utf8(text.subrange(0, m as int)).len(),
        decreases len - m,
    {
        let c = v[len - 1 - m];
        proof {
            assert(text.subrange(0, m + 1) =~= text.subrange(0, m as int).push(c));
            lemma_encode_push(text.subrange(0, m as int), c);
        }
        match total.checked_add(utf8_width(c)) {
            Some(t) => {
                total = t;
            },
            None => {
                proof {
                    lemma_encode_concat(text.subrange(0, m + 1), text.subrange(m + 1, len as int));
                    assert(text =~= text.subrange(0, m + 1) + text.subrange(m + 1, len as int));
                }
                return None;
            },
        }
        m = m + 1;
    }
    assert(text.subrange(0, len as int) =~= text);
    Some(total)
}

/// Writes `v`'s visible form in UTF-8 into `buf` at `at`, leaving every other byte alone;
/// returns the position just after it.
fn put_value(buf: &mut [u8], at: usize, v: &Vec<char>) -> (r: usize)
    requires
        at + encode_utf8(reversed(v@)).len() <= old(buf)@.len(),
    ensures
        r == at + encode_utf8(reversed(v@)).len(),
        final(buf)@ == old(buf)@.subrange(0, at as int) + encode_utf8(reversed(v@)) + old(buf)@.subrange(
            r as int,
            old(buf)@.len() as int,
        ),
{
    let ghost text = reversed(v@);
    let ghost b0 = buf@;
    let blen = buf.len();
    let len = v.len();
    let mut pos: usize = at;
    let mut m: usize = 0;
    while m < len
        invariant
            len == v@.len(),
            text == reversed(v@),
            m <= len,
            blen == b0.len(),
            at + encode_utf8(text).len() <= b0.len(),
            pos == at + encode_utf8(text.subrange(0, m as int)).len(),
            buf@ == b0.subrange(0, at as int) + encode_utf8(text.subrange(0, m as int)) + b0.subrange(
                pos as int,
                b0.len() as int,
            ),
        decreases len - m,
    {
        let c = v[len - 1 - m];
        proof {
            assert(text.subrange(0, m + 1) =~= text.subrange(0, m as int).push(c));
            lemma_encode_push(text.subrange(0, m as int), c);
            lemma_encode_concat(text.subrange(0, m + 1), text.subrange(m + 1, len as int));
            assert(text =~= text.subrange(0, m + 1) + text.subrange(m + 1, len as int));
        }
        let w = put_char(buf, pos, c);
        pos = pos + w;
        m = m + 1;
        assert(buf@ =~= b0.subrange(0, at as int) + encode_utf8(text.subrange(0, m as int)) + b0.subrange(
            pos as int,
            b0.len() as int,
        ));
    }
    assert(text.subrange(0, len as int) =~= text);
    pos
}

/// The successor of a symbol, when there is one, belongs to the alphabet.
proof fn lemma_successor_member(alpha: Seq<char>, c: char)
    requires
        successor_symbol(alpha, c) is Some,
    ensures
        alpha.contains(successor_symbol(alpha, c)->0),
    decreases alpha.len(),
{
    if alpha[0] == c {
        assert(alpha[1] == successor_symbol(alpha, c)->0);
    } else {
        lemma_successor_member(alpha.drop_first(), c);
        let k = choose|k: int| 0 <= k < alpha.drop_first().len() && #[trigger] alpha.drop_first()[k] == successor_symbol(alpha, c)->0;
        assert(alpha[k + 1] == successor_symbol(alpha, c)->0);
    }
}

} // verus!
