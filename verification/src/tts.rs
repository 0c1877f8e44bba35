//! Requests to, and responses from, the speech-synthesis service.
use vstd::prelude::*;

verus! {

/// The synthesis endpoint under the service's base URL.
pub fn tts_endpoint(base_url: &str) -> (u: String)
    ensures
        u@ == base_url@ + "/tts"@,
{
    let mut u = String::from_str(base_url);
    u.append("/tts");
    u
}

/// The little-endian 32-bit word in bytes `4 * k .. 4 * k + 4`.
pub open spec fn le_word(bytes: Seq<u8>, k: int) -> int {
    bytes[4 * k] + 256 * bytes[4 * k + 1] + 65536 * bytes[4 * k + 2] + 16777216 * bytes[4 * k + 3]
}

/// The response body read as consecutive little-endian 32-bit words (the bit
/// patterns of the f32 samples); a trailing partial word is dropped.
pub fn le_words(bytes: &[u8]) -> (w: Vec<u32>)
    ensures
        w@.len() == bytes@.len() / 4,
        forall|k: int| 0 <= k < w@.len() ==> #[trigger] w@[k] as int == le_word(bytes@, k),
{
    let n = bytes.len() / 4;
    let mut w: Vec<u32> = Vec::new();
    let mut k: usize = 0;
    while k < n
        invariant
            k <= n,
            n == bytes.len() / 4,
            w@.len() == k,
            forall|m: int| 0 <= m < k ==> #[trigger] w@[m] as int == le_word(bytes@, m),
        decreases n - k,
    {
        proof {
            let len = bytes.len();
            assert(4 * k + 4 <= len) by (nonlinear_arith)
                requires
                    k < n,
                    n == len / 4,
            ;
        }
        let b = 4 * k;
        let x = bytes[b] as u32 + 256 * bytes[b + 1] as u32 + 65536 * bytes[b + 2] as u32
            + 16777216 * bytes[b + 3] as u32;
        w.push(x);
        k = k + 1;
    }
    w
}

} // verus!
