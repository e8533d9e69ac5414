//! Pixel format conversion.
use vstd::prelude::*;
use vstd::arithmetic::div_mod::lemma_fundamental_div_mod_converse;

verus! {

/// The RGB data of the RGBA pixels `input`: each pixel's alpha byte dropped.
pub open spec fn rgb_of_rgba(input: Seq<u8>) -> Seq<u8> {
    Seq::new((input.len() / 4 * 3) as nat, |k: int| input[(k / 3) * 4 + k % 3])
}

/// Drops the alpha byte of every pixel of the RGBA data `input`.
pub fn rgba_to_rgb(input: Vec<u8>) -> (r: Vec<u8>)
    requires
        input@.len() % 4 == 0,
    ensures
        r@ == rgb_of_rgba(input@),
{
    let pixels = input.len() / 4;
    assert(input@.len() == input.len());
    let ghost target = rgb_of_rgba(input@);
    let mut output: Vec<u8> = Vec::with_capacity(pixels * 3);
    let mut i: usize = 0;
    while i < pixels
        invariant
            pixels == input@.len() / 4,
            input@.len() <= usize::MAX,
            input@.len() % 4 == 0,
            target == rgb_of_rgba(input@),
            i <= pixels,
            output@.len() == 3 * i,
            forall|k: int| 0 <= k < output@.len() ==> output@[k] == #[trigger] target[k],
        decreases pixels - i,
    {
        proof {
            lemma_fundamental_div_mod_converse(3 * i, 3, i as int, 0);
            lemma_fundamental_div_mod_converse(3 * i + 1, 3, i as int, 1);
            lemma_fundamental_div_mod_converse(3 * i + 2, 3, i as int, 2);
        }
        output.push(input[4 * i]);
        output.push(input[4 * i + 1]);
        output.push(input[4 * i + 2]);
        i += 1;
    }
    assert(output@ =~= target);
    output
}

} // verus!
