//! The local port range, read from the kernel rather than assumed.
//!
//! A bound socket with no peer looks the same whether it is a server waiting
//! for requests or a client halfway through a UDP query. What separates them
//! is the ephemeral range: the ports the kernel hands out for outgoing
//! connections. It is tunable per host, so it is read instead of being
//! written down here.

use vstd::prelude::*;

use crate::num::{dec, dec_reads_back, decimal, lemma_dec_digits, read_decimal};
use crate::text::{
    lemma_digits_are_a_word, lemma_one_word, opt_text, texts, words, words_are_inside, words_of,
    words_of_two_parts,
};

verus! {

/// The range the kernel assigns to outgoing connections.
#[derive(Debug, Clone, Copy, PartialEq, Eq, Structural)]
pub struct EphemeralPorts {
    pub low: u16,
    pub high: u16,
}

/// The range that `ip_local_port_range` spells: two ordered numbers and nothing
/// else, with white space between them.
pub open spec fn port_range(s: Seq<char>) -> Option<EphemeralPorts> {
    let w = words(s);
    if w.len() != 2 {
        None
    } else {
        match (decimal(w[0], 65535), decimal(w[1], 65535)) {
            (Some(low), Some(high)) if low <= high => Some(
                EphemeralPorts { low: low as u16, high: high as u16 },
            ),
            _ => None,
        }
    }
}

/// The kernel's own compiled-in range.
pub open spec fn builtin_range() -> EphemeralPorts {
    EphemeralPorts { low: 32768, high: 60999 }
}

impl Default for EphemeralPorts {
    /// The kernel's own compiled-in default, used only when
    /// `ip_local_port_range` cannot be read.
    fn default() -> (r: Self)
        ensures
            r == builtin_range(),
    {
        EphemeralPorts { low: 32768, high: 60999 }
    }
}

impl EphemeralPorts {
    /// Whether the kernel would hand this port out.
    pub open spec fn ephemeral(self, port: u16) -> bool {
        self.low <= port <= self.high
    }

    /// Whether a port was bound on purpose, to serve on.
    pub open spec fn service(self, port: u16) -> bool {
        port != 0 && !self.ephemeral(port)
    }

    /// The range that the contents of
    /// `/proc/sys/net/ipv4/ip_local_port_range` give. `None` stands for a file
    /// that could not be read; it and a file that is not two ordered numbers
    /// yield the kernel's default.
    pub fn load(text: Option<&str>) -> (r: Self)
        ensures
            r == (match opt_text(text) {
                Some(t) => match port_range(t) {
                    Some(p) => p,
                    None => builtin_range(),
                },
                None => builtin_range(),
            }),
    {
        match text {
            Some(t) => match Self::parse(t) {
                Some(p) => p,
                None => Self::default(),
            },
            None => Self::default(),
        }
    }

    /// Parse the file's contents. `None` when it is not two ordered numbers,
    /// so the caller falls back rather than adopting nonsense.
    pub fn parse(text: &str) -> (r: Option<Self>)
        ensures
            r == port_range(text@),
    {
        let w: Vec<String> = words_of(text);
        assert(w@.len() == texts(w@).len());
        if w.len() != 2 {
            return None;
        }
        assert(texts(w@)[0] == w@[0]@ && texts(w@)[1] == w@[1]@);
        match (read_decimal(w[0].as_str(), 65535), read_decimal(w[1].as_str(), 65535)) {
            (Some(low), Some(high)) => {
                if low <= high {
                    Some(EphemeralPorts { low: low as u16, high: high as u16 })
                } else {
                    None
                }
            },
            _ => None,
        }
    }

    /// Whether the kernel would hand this port out for an outgoing
    /// connection.
    pub fn is_ephemeral(&self, port: u16) -> (r: bool)
        ensures
            r == self.ephemeral(port),
    {
        port >= self.low && port <= self.high
    }

    /// Whether a port looks like one something deliberately bound to serve
    /// on. Port 0 is not a port.
    pub fn is_service_port(&self, port: u16) -> (r: bool)
        ensures
            r == self.service(port),
    {
        port != 0 && !self.is_ephemeral(port)
    }
}

/// Every port but 0 is either handed out or served on, and never both.
pub proof fn ports_are_handed_out_or_served_on(p: EphemeralPorts, port: u16)
    ensures
        port != 0 ==> (p.ephemeral(port) <==> !p.service(port)),
        !p.service(0),
{
}

/// A range that was read is an ordered one.
pub proof fn a_range_that_is_read_is_ordered(s: Seq<char>)
    ensures
        match port_range(s) {
            Some(p) => p.low <= p.high && p.ephemeral(p.low) && p.ephemeral(p.high),
            None => true,
        },
{
}

/// A range is read as it is written, and one that is written the wrong way round
/// is none.
pub proof fn a_written_range_is_read(low: u16, high: u16)
    ensures
        low <= high ==> port_range(
            dec(low as nat) + seq!['\t'] + dec(high as nat) + seq!['\n'],
        ) == Some(EphemeralPorts { low, high }),
        low > high ==> port_range(dec(low as nat) + seq!['\t'] + dec(high as nat) + seq!['\n']) is None,
{
    let a = dec(low as nat);
    let b = dec(high as nat);
    let s = a + seq!['\t'] + b;
    lemma_dec_digits(low as nat);
    lemma_dec_digits(high as nat);
    lemma_digits_are_a_word(a);
    lemma_digits_are_a_word(b);
    lemma_one_word(a);
    lemma_one_word(b);
    words_of_two_parts(a, '\t', b);
    words_are_inside(s);
    assert(words(s) =~= seq![a, b]);
    dec_reads_back(low as nat, 65535);
    dec_reads_back(high as nat, 65535);
}

/// A text of any other number of words is no range.
pub proof fn a_range_is_two_words(s: Seq<char>)
    requires
        words(s).len() != 2,
    ensures
        port_range(s) is None,
{
}

/// The kernel hands out the ports of the range, both ends of it too, and serves
/// on the others; port 0 is neither served on nor a port.
pub proof fn the_range_goes_from_end_to_end(p: EphemeralPorts, port: u16)
    ensures
        p.ephemeral(port) <==> p.low <= port && port <= p.high,
        p.service(port) <==> port > 0 && (port < p.low || port > p.high),
        builtin_range().low == 32768 && builtin_range().high == 60999,
{
}

} // verus!
