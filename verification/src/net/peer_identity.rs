//! The fingerprint of a peer's certificate.
use vstd::prelude::*;
use sha2::Digest;

verus! {

/// The SHA-256 digest of a message.
pub uninterp spec fn sha256_digest(data: Seq<u8>) -> Seq<u8>;

/// `sha2::Sha256::digest`. Believed of it: the digest is 32 bytes long and a
/// function of the message alone.
#[verifier::external_body]
fn sha256(data: &[u8]) -> (r: Vec<u8>)
    ensures
        r@ == sha256_digest(data@),
        r.len() == 32,
{
    sha2::Sha256::digest(data).to_vec()
}

/// The lower-case hexadecimal digit of `d`.
pub open spec fn hex_digit(d: nat) -> char {
    if d < 10 {
        (('0' as u32) + d) as char
    } else {
        (('a' as u32) + (d - 10)) as char
    }
}

/// Two hexadecimal digits for each byte.
pub open spec fn hex_of(bytes: Seq<u8>) -> Seq<char> {
    Seq::new(
        2 * bytes.len(),
        |i: int|
            if i % 2 == 0 {
                hex_digit(bytes[i / 2] as nat / 16)
            } else {
                hex_digit(bytes[i / 2] as nat % 16)
            },
    )
}

fn hex_digit_text(d: u8) -> (r: &'static str)
    requires
        d < 16,
    ensures
        r@ == seq![hex_digit(d as nat)],
{
    proof {
        reveal_strlit("0");
        reveal_strlit("1");
        reveal_strlit("2");
        reveal_strlit("3");
        reveal_strlit("4");
        reveal_strlit("5");
        reveal_strlit("6");
        reveal_strlit("7");
        reveal_strlit("8");
        reveal_strlit("9");
        reveal_strlit("a");
        reveal_strlit("b");
        reveal_strlit("c");
        reveal_strlit("d");
        reveal_strlit("e");
        reveal_strlit("f");
    }
    match d {
        0 => "0",
        1 => "1",
        2 => "2",
        3 => "3",
        4 => "4",
        5 => "5",
        6 => "6",
        7 => "7",
        8 => "8",
        9 => "9",
        10 => "a",
        11 => "b",
        12 => "c",
        13 => "d",
        14 => "e",
        _ => "f",
    }
}

/// Writes bytes in hexadecimal.
pub fn hex_text(bytes: &[u8]) -> (r: String)
    ensures
        r@ == hex_of(bytes@),
{
    let mut out: String = String::new();
    let mut i: usize = 0;
    while i < bytes.len()
        invariant
            i <= bytes.len(),
            out@ == hex_of(bytes@).take(2 * i),
        decreases bytes.len() - i,
    {
        out.append(hex_digit_text(bytes[i] / 16));
        out.append(hex_digit_text(bytes[i] % 16));
        proof {
            let all = hex_of(bytes@);
            assert(all[2 * i] == hex_digit(bytes[i as int] as nat / 16));
            assert(all[2 * i + 1] == hex_digit(bytes[i as int] as nat % 16));
            assert(out@ =~= all.take(2 * (i + 1)));
        }
        i = i + 1;
    }
    proof {
        assert(hex_of(bytes@).take(2 * i) =~= hex_of(bytes@));
    }
    out
}

/// The fingerprint of a certificate: the digest of its encoding in
/// hexadecimal.
pub fn certificate_fingerprint(der: &[u8]) -> (r: String)
    ensures
        r@ == hex_of(sha256_digest(der@)),
{
    hex_text(sha256(der).as_slice())
}

/// The fingerprint of the leaf of a verified certificate chain; none without
/// a chain, or where it is empty.
pub fn peer_cert_fingerprint(chain: Option<&Vec<Vec<u8>>>) -> (r: Option<String>)
    ensures
        match r {
            Some(f) => chain is Some && chain->0.len() > 0 && f@ == hex_of(
                sha256_digest(chain->0[0]@),
            ),
            None => chain is None || chain->0.len() == 0,
        },
{
    match chain {
        None => None,
        Some(certs) => if certs.len() == 0 {
            None
        } else {
            Some(certificate_fingerprint(certs[0].as_slice()))
        },
    }
}

} // verus!
