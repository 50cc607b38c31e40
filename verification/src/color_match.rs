//! Colour statistics of images: how often each sample value occurs in each
//! channel, and the running totals of those counts.

use crate::buffer::RgbBuffer;
use vstd::prelude::*;

verus! {

/// How many of the first `n` pixels have the value `value` in channel `c`.
pub open spec fn occurrences_of(data: Seq<u8>, c: int, value: int, n: nat) -> nat
    decreases n,
{
    if n == 0 {
        0
    } else {
        occurrences_of(data, c, value, (n - 1) as nat) + (if data[3 * (n - 1) + c] == value {
            1nat
        } else {
            0nat
        })
    }
}

/// The sum of the first `n` counts of channel `c`.
pub open spec fn running_total(histograms: Seq<usize>, c: int, n: nat) -> int
    decreases n,
{
    if n == 0 {
        0
    } else {
        running_total(histograms, c, (n - 1) as nat) + histograms[c * 256 + n - 1]
    }
}

/// No channel's counts add up to more than a machine word holds.
pub open spec fn totals_fit(histograms: Seq<usize>) -> bool {
    forall|c: int| 0 <= c < 3 ==> #[trigger] running_total(histograms, c, 256) <= usize::MAX
}

/// A running total never shrinks.
pub proof fn lemma_running_total_grows(histograms: Seq<usize>, c: int, n1: nat, n2: nat)
    requires
        n1 <= n2,
    ensures
        0 <= running_total(histograms, c, n1) <= running_total(histograms, c, n2),
    decreases n2,
{
    if n2 > 0 {
        if n1 < n2 {
            lemma_running_total_grows(histograms, c, n1, (n2 - 1) as nat);
        } else {
            lemma_running_total_grows(histograms, c, (n1 - 1) as nat, (n2 - 1) as nat);
        }
    }
}

/// No value occurs more often than there are pixels.
pub proof fn lemma_occurrences_of_bound(data: Seq<u8>, c: int, value: int, n: nat)
    ensures
        occurrences_of(data, c, value, n) <= n,
    decreases n,
{
    if n > 0 {
        lemma_occurrences_of_bound(data, c, value, (n - 1) as nat);
    }
}

/// Adds the pixels of `img` to `histograms`: entry `c * 256 + v` counts the
/// pixels whose sample in channel `c` is `v`.
pub fn add_to_histograms(img: &RgbBuffer, histograms: &mut [usize; 768])
    requires
        img.wf(),
        forall|i: int|
            0 <= i < 768 ==> old(histograms)[i] + img@.width * img@.height <= usize::MAX,
    ensures
        forall|c: int, v: int|
            0 <= c < 3 && 0 <= v < 256 ==> #[trigger] final(histograms)[c * 256 + v] == old(
                histograms,
            )[c * 256 + v] + occurrences_of(
                img@.data,
                c,
                v,
                (img@.width * img@.height) as nat,
            ),
{
    let data = img.as_raw();
    let ghost before = histograms@;
    let ghost pixels = img@.width * img@.height;
    proof {
        assert(3 * img@.width * img@.height == 3 * pixels) by (nonlinear_arith)
            requires
                pixels == img@.width * img@.height,
        ;
        assert(pixels >= 0) by (nonlinear_arith)
            requires
                pixels == img@.width * img@.height,
        ;
    }
    let n = data.len() / 3;
    let mut p: usize = 0;
    while p < n
        invariant
            p <= n,
            n == pixels,
            data.len() == 3 * pixels,
            data@ == img@.data,
            forall|i: int| 0 <= i < 768 ==> before[i] + pixels <= usize::MAX,
            forall|c: int, v: int|
                0 <= c < 3 && 0 <= v < 256 ==> #[trigger] histograms@[c * 256 + v] == before[c * 256
                    + v] + occurrences_of(data@, c, v, p as nat),
        decreases n - p,
    {
        let mut c: usize = 0;
        while c < 3
            invariant
                p < n,
                c <= 3,
                n == pixels,
                data.len() == 3 * pixels,
                data@ == img@.data,
                forall|i: int| 0 <= i < 768 ==> before[i] + pixels <= usize::MAX,
                forall|k: int, v: int|
                    0 <= k < 3 && 0 <= v < 256 ==> #[trigger] histograms@[k * 256 + v] == before[k
                        * 256 + v] + occurrences_of(
                        data@,
                        k,
                        v,
                        if k < c {
                            (p + 1) as nat
                        } else {
                            p as nat
                        },
                    ),
            decreases 3 - c,
        {
            let value = data[3 * p + c] as usize;
            let at = c * 256 + value;
            let ghost previous = histograms@;
            proof {
                lemma_occurrences_of_bound(data@, c as int, value as int, p as nat);
                assert(previous[c * 256 + value] == before[c * 256 + value] + occurrences_of(
                    data@,
                    c as int,
                    value as int,
                    p as nat,
                ));
            }
            histograms[at] = histograms[at] + 1;
            proof {
                assert forall|k: int, v: int| 0 <= k < 3 && 0 <= v < 256 implies #[trigger] histograms@[k
                    * 256 + v] == before[k * 256 + v] + occurrences_of(
                    data@,
                    k,
                    v,
                    if k < c + 1 {
                        (p + 1) as nat
                    } else {
                        p as nat
                    },
                ) by {
                    assert(previous[k * 256 + v] == before[k * 256 + v] + occurrences_of(
                        data@,
                        k,
                        v,
                        if k < c {
                            (p + 1) as nat
                        } else {
                            p as nat
                        },
                    ));
                    if k == c && v == value {
                    } else {
                        assert(k * 256 + v != at);
                    }
                }
            }
            c += 1;
        }
        p += 1;
    }
}

/// The running totals of a histogram of three channels: entry `c * 256 + i`
/// is the number of samples of channel `c` with a value of at most `i`.
pub fn histograms_to_cdfs(histograms: &[usize; 768]) -> (cdfs: [usize; 768])
    requires
        totals_fit(histograms@),
    ensures
        forall|c: int, i: int|
            0 <= c < 3 && 0 <= i < 256 ==> #[trigger] cdfs[c * 256 + i] == running_total(
                histograms@,
                c,
                (i + 1) as nat,
            ),
{
    let mut cdfs: [usize; 768] = [0usize; 768];
    let mut channel: usize = 0;
    while channel < 3
        invariant
            channel <= 3,
            totals_fit(histograms@),
            forall|c: int, i: int|
                0 <= c < channel && 0 <= i < 256 ==> #[trigger] cdfs@[c * 256 + i]
                    == running_total(histograms@, c, (i + 1) as nat),
        decreases 3 - channel,
    {
        let mut cumulative: usize = 0;
        let mut i: usize = 0;
        while i < 256
            invariant
                channel < 3,
                i <= 256,
                totals_fit(histograms@),
                cumulative == running_total(histograms@, channel as int, i as nat),
                forall|c: int, k: int|
                    0 <= c < channel && 0 <= k < 256 ==> #[trigger] cdfs@[c * 256 + k]
                        == running_total(histograms@, c, (k + 1) as nat),
                forall|k: int|
                    0 <= k < i ==> #[trigger] cdfs@[channel * 256 + k] == running_total(
                        histograms@,
                        channel as int,
                        (k + 1) as nat,
                    ),
            decreases 256 - i,
        {
            proof {
                lemma_running_total_grows(histograms@, channel as int, (i + 1) as nat, 256);
                assert(running_total(histograms@, channel as int, 256) <= usize::MAX);
            }
            cumulative = cumulative + histograms[channel * 256 + i];
            let ghost previous = cdfs@;
            cdfs[channel * 256 + i] = cumulative;
            proof {
                assert forall|c: int, k: int| 0 <= c < channel && 0 <= k < 256 implies #[trigger] cdfs@[c
                    * 256 + k] == running_total(histograms@, c, (k + 1) as nat) by {
                    assert(previous[c * 256 + k] == running_total(
                        histograms@,
                        c,
                        (k + 1) as nat,
                    ));
                }
                assert forall|k: int| 0 <= k < i + 1 implies #[trigger] cdfs@[channel * 256 + k]
                    == running_total(histograms@, channel as int, (k + 1) as nat) by {
                    if k < i {
                        assert(previous[channel * 256 + k] == running_total(
                            histograms@,
                            channel as int,
                            (k + 1) as nat,
                        ));
                    }
                }
            }
            i += 1;
        }
        channel += 1;
    }
    cdfs
}

} // verus!
