//! Who is allowed to change the machine from the browser.
//!
//! Reading is different from writing here, and the difference is not a matter
//! of degree. The read endpoints answer questions about this host to anything
//! that can reach loopback. The write endpoints change the machine's routing as
//! root, so they want proof of something a browser cannot have on its own:
//! access to the terminal the server was started from, where the token is
//! printed and nowhere else.
//!
//! It is not a password: anyone who can read that terminal can already run the
//! planner directly. It is a statement that the request came from the person
//! sitting at the machine rather than from a page that merely reached it.

use vstd::prelude::*;
use vstd::string::*;
use vstd::utf8::*;

use crate::num::{digit_char, hex2, push_hex2};
use crate::text::{copy, opt_text};

verus! {

/// A one-per-process token, printed on the terminal at startup.
#[derive(Debug)]
pub struct Gate {
    token: String,
}

impl View for Gate {
    type V = Seq<char>;

    closed spec fn view(&self) -> Seq<char> {
        self.token@
    }
}

impl Clone for Gate {
    fn clone(&self) -> (r: Self)
        ensures
            r@ == self@,
    {
        Gate { token: copy(self.token.as_str()) }
    }
}

/// Bytes in hexadecimal, two digits each.
pub open spec fn hex_of(b: Seq<u8>) -> Seq<char>
    decreases b.len(),
{
    if b.len() == 0 {
        seq![]
    } else {
        hex_of(b.drop_last()) + hex2(b.last() as nat)
    }
}

/// The token for some random bytes. Without them it is empty.
pub open spec fn token_of(random: Option<[u8; 16]>) -> Seq<char> {
    match random {
        Some(b) => hex_of(b@),
        None => seq![],
    }
}

/// Whether what is presented is the token. An empty token is never presented
/// rightly.
pub open spec fn opens(token: Seq<char>, presented: Option<Seq<char>>) -> bool {
    token.len() > 0 && presented == Some(token)
}

fn hex_text(b: &[u8]) -> (r: String)
    ensures
        r@ == hex_of(b@),
{
    let mut s: String = String::new();
    let mut i: usize = 0;
    assert(b@.take(0) =~= Seq::<u8>::empty());
    while i < b.len()
        invariant
            i <= b@.len(),
            s@ == hex_of(b@.take(i as int)),
        decreases b@.len() - i,
    {
        assert(b@.take(i + 1).drop_last() =~= b@.take(i as int));
        push_hex2(&mut s, b[i]);
        i += 1;
    }
    assert(b@.take(i as int) =~= b@);
    s
}

impl Gate {
    /// A gate for what the kernel's random source gave.
    ///
    /// Without randomness it refuses every write rather than falling back to a
    /// weak token: a machine that cannot produce randomness should not be
    /// handed a guessable key to its own routing.
    pub fn new(random: Option<[u8; 16]>) -> (r: Self)
        ensures
            r@ == token_of(random),
    {
        let token: String = match random {
            Some(b) => hex_text(b.as_slice()),
            None => String::new(),
        };
        assert(random is None ==> token@ =~= seq![]);
        Gate { token }
    }

    /// A gate with a known token.
    pub fn with_token(token: &str) -> (r: Self)
        ensures
            r@ == token@,
    {
        Gate { token: copy(token) }
    }

    /// The token, for printing once at startup.
    pub fn token(&self) -> (r: &str)
        ensures
            r@ == self@,
    {
        self.token.as_str()
    }

    /// Whether this request may change the machine.
    ///
    /// An empty configured token never matches anything, so a server that
    /// could not read randomness refuses every write instead of accepting every
    /// write. The comparison takes the same time wherever the two differ.
    pub fn allows(&self, presented: Option<&str>) -> (r: bool)
        ensures
            r == opens(self@, opt_text(presented)),
    {
        let p: &str = match presented {
            Some(p) => p,
            None => {
                return false;
            },
        };
        let a: &[u8] = self.token.as_str().as_bytes();
        let b: &[u8] = p.as_bytes();
        proof {
            encode_utf8_decode_utf8(self@);
            encode_utf8_decode_utf8(p@);
            lemma_encodes_something(self@);
        }
        if a.len() == 0 || b.len() != a.len() {
            return false;
        }
        let mut diff: u8 = 0;
        let mut i: usize = 0;
        assert(a@.take(0) =~= b@.take(0));
        while i < a.len()
            invariant
                i <= a@.len(),
                a@.len() == b@.len(),
                diff == 0 <==> a@.take(i as int) == b@.take(i as int),
            decreases a@.len() - i,
        {
            let x: u8 = a[i];
            let y: u8 = b[i];
            let ghost d = diff;
            assert((d | (x ^ y)) == 0 <==> (d == 0 && x == y)) by (bit_vector);
            proof {
                assert(a@.take(i + 1) =~= a@.take(i as int).push(x));
                assert(b@.take(i + 1) =~= b@.take(i as int).push(y));
                if a@.take(i + 1) == b@.take(i + 1) {
                    assert(a@.take(i as int) =~= a@.take(i + 1).drop_last());
                    assert(b@.take(i as int) =~= b@.take(i + 1).drop_last());
                    assert(x == a@.take(i + 1).last());
                    assert(y == b@.take(i + 1).last());
                }
            }
            diff = diff | (x ^ y);
            i += 1;
        }
        assert(a@.take(i as int) =~= a@);
        assert(b@.take(i as int) =~= b@);
        diff == 0
    }
}

proof fn lemma_encodes_something(s: Seq<char>)
    ensures
        s.len() == 0 <==> encode_utf8(s).len() == 0,
{
    if s.len() > 0 {
        encode_utf8_first_scalar(s);
    }
}

// ---------------------------------------------------------------------------
// Laws
// ---------------------------------------------------------------------------

/// A server without randomness refuses every write.
pub proof fn without_randomness_nothing_is_allowed(presented: Option<Seq<char>>)
    ensures
        !opens(token_of(None), presented),
{
}

/// A token is two hexadecimal digits for each byte.
pub proof fn a_token_is_hexadecimal(b: Seq<u8>, i: int)
    requires
        0 <= i < hex_of(b).len(),
    ensures
        hex_of(b).len() == 2 * b.len(),
        exists|d: nat| d < 16 && hex_of(b)[i] == #[trigger] digit_char(d),
    decreases b.len(),
{
    lemma_hex_len(b);
    let front = hex_of(b.drop_last());
    lemma_hex_len(b.drop_last());
    let n = b.last() as nat;
    if i < front.len() {
        a_token_is_hexadecimal(b.drop_last(), i);
        let d = choose|d: nat| d < 16 && front[i] == #[trigger] digit_char(d);
        assert(hex_of(b)[i] == digit_char(d));
    } else if i == front.len() {
        assert(hex_of(b)[i] == digit_char(n / 16 % 16));
    } else {
        assert(hex_of(b)[i] == digit_char(n % 16));
    }
}

proof fn lemma_hex_len(b: Seq<u8>)
    ensures
        hex_of(b).len() == 2 * b.len(),
    decreases b.len(),
{
    if b.len() > 0 {
        lemma_hex_len(b.drop_last());
    }
}

proof fn lemma_digits_differ(m: nat, n: nat)
    requires
        m < 16,
        n < 16,
        digit_char(m) == digit_char(n),
    ensures
        m == n,
{
}

/// Different random bytes make different tokens.
pub proof fn different_bytes_make_different_tokens(a: Seq<u8>, b: Seq<u8>)
    requires
        hex_of(a) == hex_of(b),
    ensures
        a == b,
    decreases a.len(),
{
    lemma_hex_len(a);
    lemma_hex_len(b);
    if a.len() == 0 {
        assert(a =~= b);
    } else {
        let (m, n) = (a.last() as nat, b.last() as nat);
        let (x, y) = (hex_of(a.drop_last()), hex_of(b.drop_last()));
        lemma_hex_len(a.drop_last());
        lemma_hex_len(b.drop_last());
        let k = x.len() as int;
        assert(hex_of(a)[k] == digit_char(m / 16 % 16));
        assert(hex_of(a)[k + 1] == digit_char(m % 16));
        assert(hex_of(b)[k] == digit_char(n / 16 % 16));
        assert(hex_of(b)[k + 1] == digit_char(n % 16));
        lemma_digits_differ(m / 16 % 16, n / 16 % 16);
        lemma_digits_differ(m % 16, n % 16);
        assert(x =~= hex_of(a).take(k));
        assert(y =~= hex_of(b).take(k));
        different_bytes_make_different_tokens(a.drop_last(), b.drop_last());
        assert(a =~= a.drop_last().push(a.last()));
        assert(b =~= b.drop_last().push(b.last()));
    }
}

/// A token that was made opens its own gate and no other text does.
pub proof fn only_the_token_opens(random: [u8; 16], presented: Option<Seq<char>>)
    ensures
        opens(token_of(Some(random)), presented) <==> presented == Some(hex_of(random@)),
{
    lemma_hex_len(random@);
}

} // verus!
