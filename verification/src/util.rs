use vstd::prelude::*;
use crate::text::push_char;
use rand::TryRng;

verus! {

/// The lower-case hexadecimal digit for `d` (for `d < 16`).
pub open spec fn hex_digit(d: nat) -> char {
    if d < 10 {
        ((d + 48) as u8) as char
    } else {
        ((d + 87) as u8) as char
    }
}

/// The two lower-case hexadecimal digits of `b`, as `{:02x}` writes them.
pub open spec fn hex_byte(b: u8) -> Seq<char> {
    seq![hex_digit(b as nat / 16), hex_digit(b as nat % 16)]
}

/// The MAC address `52:54:00:xx:yy:zz` made from the bytes `b`
/// (QEMU's locally administered prefix, then the three bytes in hex).
pub open spec fn mac_text(b: Seq<u8>) -> Seq<char> {
    "52:54:00:"@ + hex_byte(b[0]) + ":"@ + hex_byte(b[1]) + ":"@ + hex_byte(b[2])
}

/// A lower-case hexadecimal digit.
pub open spec fn is_lower_hex(c: char) -> bool {
    ('0' <= c <= '9') || ('a' <= c <= 'f')
}

proof fn lemma_hex_digit(d: nat, e: nat)
    requires
        d < 16,
        e < 16,
    ensures
        is_lower_hex(hex_digit(d)),
        hex_digit(d) == hex_digit(e) ==> d == e,
{
}

/// The layout of a generated MAC address: 17 characters, the fixed prefix
/// `52:54:00:`, then the three bytes as lower-case hexadecimal pairs separated
/// by `:`.
pub proof fn lemma_mac_layout(b: Seq<u8>)
    requires
        b.len() == 3,
    ensures
        ({
            let m = mac_text(b);
            &&& m.len() == 17
            &&& m.subrange(0, 9) == "52:54:00:"@
            &&& m.subrange(9, 11) == hex_byte(b[0])
            &&& m[11] == ':'
            &&& m.subrange(12, 14) == hex_byte(b[1])
            &&& m[14] == ':'
            &&& m.subrange(15, 17) == hex_byte(b[2])
            &&& forall|i: int| 9 <= i < 17 && i != 11 && i != 14 ==> is_lower_hex(#[trigger] m[i])
        }),
{
    reveal_strlit("52:54:00:");
    reveal_strlit(":");
    let m = mac_text(b);
    assert(m.subrange(0, 9) =~= "52:54:00:"@);
    assert(m.subrange(9, 11) =~= hex_byte(b[0]));
    assert(m.subrange(12, 14) =~= hex_byte(b[1]));
    assert(m.subrange(15, 17) =~= hex_byte(b[2]));
    lemma_hex_digit(b[0] as nat / 16, 0);
    lemma_hex_digit(b[0] as nat % 16, 0);
    lemma_hex_digit(b[1] as nat / 16, 0);
    lemma_hex_digit(b[1] as nat % 16, 0);
    lemma_hex_digit(b[2] as nat / 16, 0);
    lemma_hex_digit(b[2] as nat % 16, 0);
    assert forall|i: int| 9 <= i < 17 && i != 11 && i != 14 implies is_lower_hex(#[trigger] m[i]) by {
        if i == 9 {
            assert(m[i] == hex_byte(b[0])[0]);
        } else if i == 10 {
            assert(m[i] == hex_byte(b[0])[1]);
        } else if i == 12 {
            assert(m[i] == hex_byte(b[1])[0]);
        } else if i == 13 {
            assert(m[i] == hex_byte(b[1])[1]);
        } else if i == 15 {
            assert(m[i] == hex_byte(b[2])[0]);
        } else {
            assert(m[i] == hex_byte(b[2])[1]);
        }
    }
}

proof fn lemma_hex_byte_injective(x: u8, y: u8)
    requires
        hex_byte(x) == hex_byte(y),
    ensures
        x == y,
{
    assert(hex_byte(x)[0] == hex_byte(y)[0]);
    assert(hex_byte(x)[1] == hex_byte(y)[1]);
    lemma_hex_digit(x as nat / 16, y as nat / 16);
    lemma_hex_digit(x as nat % 16, y as nat % 16);
    assert(x as nat == (x as nat / 16) * 16 + x as nat % 16);
    assert(y as nat == (y as nat / 16) * 16 + y as nat % 16);
}

/// Different bytes give different MAC addresses.
pub proof fn lemma_mac_injective(b1: Seq<u8>, b2: Seq<u8>)
    requires
        b1.len() == 3,
        b2.len() == 3,
        mac_text(b1) == mac_text(b2),
    ensures
        b1 == b2,
{
    reveal_strlit("52:54:00:");
    reveal_strlit(":");
    let m = mac_text(b1);
    assert(m.subrange(9, 11) =~= hex_byte(b1[0]));
    assert(m.subrange(9, 11) =~= hex_byte(b2[0]));
    assert(m.subrange(12, 14) =~= hex_byte(b1[1]));
    assert(m.subrange(12, 14) =~= hex_byte(b2[1]));
    assert(m.subrange(15, 17) =~= hex_byte(b1[2]));
    assert(m.subrange(15, 17) =~= hex_byte(b2[2]));
    lemma_hex_byte_injective(b1[0], b2[0]);
    lemma_hex_byte_injective(b1[1], b2[1]);
    lemma_hex_byte_injective(b1[2], b2[2]);
    assert(b1 =~= b2);
}

fn hex_char(d: u8) -> (c: char)
    requires
        d < 16,
    ensures
        c == hex_digit(d as nat),
{
    if d < 10 {
        (d + 48) as char
    } else {
        (d + 87) as char
    }
}

fn push_hex_byte(s: &mut String, b: u8)
    ensures
        final(s)@ == old(s)@ + hex_byte(b),
{
    push_char(s, hex_char(b / 16));
    push_char(s, hex_char(b % 16));
    proof {
        assert(final(s)@ =~= old(s)@ + hex_byte(b));
    }
}

/// The MAC address made from the three bytes `b`.
pub fn mac_from_bytes(b: [u8; 3]) -> (mac: String)
    ensures
        mac@ == mac_text(b@),
{
    let mut mac = "52:54:00:".to_string();
    push_hex_byte(&mut mac, b[0]);
    mac.append(":");
    push_hex_byte(&mut mac, b[1]);
    mac.append(":");
    push_hex_byte(&mut mac, b[2]);
    mac
}

/// Three bytes from the operating system's random source: fills a buffer
/// through `rand::rngs::SysRng` (`getrandom::SysRng`) and its
/// `TryRng::try_fill_bytes`, which reports a failure of the source as an
/// error, whose text is handed back. Nothing is claimed of the bytes.
#[verifier::external_body]
fn random_bytes() -> (r: Result<[u8; 3], String>) {
    let mut buf = [0u8; 3];
    match rand::rngs::SysRng.try_fill_bytes(&mut buf) {
        Ok(()) => Ok(buf),
        Err(e) => Err(e.to_string()),
    }
}

/// A fresh MAC address in QEMU's `52:54:00` range, with random last three
/// bytes; the error text of the random source when it fails.
pub fn generate_mac() -> (r: Result<String, String>)
    ensures
        r matches Ok(mac) ==> exists|b: Seq<u8>| b.len() == 3 && mac@ == mac_text(b),
{
    match random_bytes() {
        Ok(b) => {
            let mac = mac_from_bytes(b);
            proof {
                assert(b@.len() == 3 && mac@ == mac_text(b@));
            }
            Ok(mac)
        },
        Err(e) => Err(e),
    }
}

/// The network settings of a guest that is reached over SSH.
pub struct SshConfig {
    mac: String,
}

impl Clone for SshConfig {
    /// A copy with the same MAC address.
    fn clone(&self) -> (c: Self)
        ensures
            c@ == self@,
    {
        SshConfig { mac: self.mac.clone() }
    }
}

impl View for SshConfig {
    type V = Seq<char>;

    /// The MAC address of the guest's network card.
    closed spec fn view(&self) -> Seq<char> {
        self.mac@
    }
}

impl SshConfig {
    /// A configuration with a freshly generated MAC address; the error text
    /// of the random source when it fails.
    pub fn new() -> (r: Result<Self, String>)
        ensures
            r matches Ok(c) ==> exists|b: Seq<u8>| b.len() == 3 && c@ == mac_text(b),
    {
        match generate_mac() {
            Ok(mac) => Ok(SshConfig { mac }),
            Err(e) => Err(e),
        }
    }

    /// The MAC address of the guest's network card.
    pub fn mac(&self) -> (m: &str)
        ensures
            m@ == self@,
    {
        self.mac.as_str()
    }
}

} // verus!
