//! Repair of the manifest's JSON dialect, in which a bare `N` stands for `null`.
use vstd::prelude::*;

verus! {

/// What a left-to-right scan of a fragment remembers between two characters.
#[derive(Clone, Copy)]
pub struct Scan {
    /// The scan stands inside a quoted string.
    pub in_string: bool,
    /// The character before was a backslash that was not itself escaped.
    pub escaped: bool,
}

impl Scan {
    /// The state before the first character.
    pub open spec fn start() -> Scan {
        Scan { in_string: false, escaped: false }
    }

    /// Whether `c`, met in this state, is the bare token that stands for `null`.
    pub open spec fn is_null_token(self, c: char) -> bool {
        c == 'N' && !self.in_string && !self.escaped
    }

    /// The state after `c`. A null token leaves the state as it is; an
    /// unescaped quote enters or leaves a string; an unescaped backslash
    /// escapes the next character; anything else ends an escape.
    pub open spec fn step(self, c: char) -> Scan {
        if self.is_null_token(c) {
            self
        } else if c == '"' && !self.escaped {
            Scan { in_string: !self.in_string, escaped: false }
        } else if c == '\\' && !self.escaped {
            Scan { in_string: self.in_string, escaped: true }
        } else {
            Scan { in_string: self.in_string, escaped: false }
        }
    }

    /// What the scan writes for `c`: `null` for a null token, else `c` itself.
    pub open spec fn emit(self, c: char) -> Seq<char> {
        if self.is_null_token(c) {
            seq!['n', 'u', 'l', 'l']
        } else {
            seq![c]
        }
    }

    /// What a scan that starts in this state writes for `text`.
    pub open spec fn rewrite(self, text: Seq<char>) -> Seq<char>
        decreases text.len(),
    {
        if text.len() == 0 {
            Seq::empty()
        } else {
            self.emit(text[0]) + self.step(text[0]).rewrite(text.drop_first())
        }
    }

    /// The state in which a scan that starts in this state leaves `text`.
    pub open spec fn after(self, text: Seq<char>) -> Scan
        decreases text.len(),
    {
        if text.len() == 0 {
            self
        } else {
            self.step(text[0]).after(text.drop_first())
        }
    }

    /// A scan may pause after any prefix of the text and go on from the state
    /// it reached.
    pub proof fn lemma_rewrite_push(self, text: Seq<char>, c: char)
        ensures
            self.rewrite(text.push(c)) == self.rewrite(text) + self.after(text).emit(c),
            self.after(text.push(c)) == self.after(text).step(c),
        decreases text.len(),
    {
        if text.len() == 0 {
            let rest = text.push(c).drop_first();
            assert(rest =~= Seq::<char>::empty());
            assert(self.step(c).rewrite(rest) =~= Seq::<char>::empty());
            assert(self.step(c).after(rest) == self.step(c));
            assert(self.rewrite(text.push(c)) =~= self.emit(c));
        } else {
            assert(text.push(c).drop_first() =~= text.drop_first().push(c));
            self.step(text[0]).lemma_rewrite_push(text.drop_first(), c);
            assert(self.rewrite(text.push(c)) =~= self.rewrite(text) + self.after(text).emit(c));
        }
    }

    fn advance(&mut self, c: char, out: &mut String)
        ensures
            *final(self) == old(self).step(c),
            final(out)@ == old(out)@ + old(self).emit(c),
    {
        if c == 'N' && !self.in_string && !self.escaped {
            out.push('n');
            out.push('u');
            out.push('l');
            out.push('l');
        } else {
            if c == '"' && !self.escaped {
                self.in_string = !self.in_string;
            } else if c == '\\' && !self.escaped {
                self.escaped = true;
            } else {
                self.escaped = false;
            }
            out.push(c);
        }
        assert(out@ =~= old(out)@ + old(self).emit(c));
    }
}

/// The text with every null token replaced by `null`.
pub open spec fn normalized(text: Seq<char>) -> Seq<char> {
    Scan::start().rewrite(text)
}

/// Appends to `out` the normal form of `chars[from..to]`.
pub fn normalize_into(out: &mut String, chars: &Vec<char>, from: usize, to: usize)
    requires
        from <= to <= chars.len(),
    ensures
        final(out)@ == old(out)@ + normalized(chars@.subrange(from as int, to as int)),
{
    let mut scan = Scan { in_string: false, escaped: false };
    let mut i: usize = from;
    assert(chars@.subrange(from as int, from as int) =~= Seq::<char>::empty());
    while i < to
        invariant
            from <= i <= to <= chars.len(),
            scan == Scan::start().after(chars@.subrange(from as int, i as int)),
            out@ == old(out)@ + normalized(chars@.subrange(from as int, i as int)),
        decreases to - i,
    {
        proof {
            let done = chars@.subrange(from as int, i as int);
            Scan::start().lemma_rewrite_push(done, chars@[i as int]);
            assert(done.push(chars@[i as int]) =~= chars@.subrange(from as int, i + 1));
        }
        scan.advance(chars[i], out);
        i += 1;
    }
}

/// Rewrites one manifest fragment as JSON: a bare `N` outside quoted strings,
/// and not behind a backslash, becomes `null`; every other character stays.
pub fn fix_json(json: &str) -> (fixed: String)
    ensures
        fixed@ == normalized(json@),
{
    let chars = crate::text::chars_of(json);
    let mut fixed = String::new();
    normalize_into(&mut fixed, &chars, 0, chars.len());
    assert(chars@.subrange(0, chars@.len() as int) =~= chars@);
    fixed
}

} // verus!
