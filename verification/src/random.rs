use rand::Rng;
use vstd::prelude::*;

verus! {

/// A number drawn at random below `n`: `rand::Rng::gen_range` with the
/// range `0..n`, on the generator that `rand::thread_rng` gives. What is
/// claimed of it is only that it lies in that range; which number comes is
/// left unsaid, as it rests on chance.
#[verifier::external_body]
pub(crate) fn random_below(n: usize) -> (r: usize)
    requires
        n > 0,
    ensures
        r < n,
{
    rand::thread_rng().gen_range(0..n)
}

/// The text of a version-4 identifier: 36 characters, hyphens at positions
/// 8, 13, 18 and 23 and lower-case hexadecimal digits elsewhere, the
/// version digit `4` at position 14 and the variant digit, one of `8`, `9`,
/// `a` and `b`, at position 19.
pub open spec fn is_uuid_text(s: Seq<char>) -> bool {
    &&& s.len() == 36
    &&& forall|i: int|
        0 <= i < 36 ==> if i == 8 || i == 13 || i == 18 || i == 23 {
            #[trigger] s[i] == '-'
        } else {
            ('0' <= s[i] <= '9') || ('a' <= s[i] <= 'f')
        }
    &&& s[14] == '4'
    &&& (s[19] == '8' || s[19] == '9' || s[19] == 'a' || s[19] == 'b')
}

/// A fresh random identifier: `uuid::Uuid::new_v4`, written out with
/// `to_string`, which gives the hyphenated lower-case form. `new_v4` sets
/// the version nibble to 4 and the two top variant bits to `10`, so the
/// fifteenth character is `4` and the twentieth one of `8`, `9`, `a`, `b`.
/// What is claimed is only that form; the other digits rest on chance.
#[verifier::external_body]
pub(crate) fn new_uuid_string() -> (s: String)
    ensures
        is_uuid_text(s@),
{
    uuid::Uuid::new_v4().to_string()
}

} // verus!
