//! Running a chain of coders over a byte string.
//!
//! The coders themselves are the caller's: a function that takes a coder's
//! configuration and its input and gives the coder's output. The chain feeds
//! the input to the last-declared coder and each coder's output to the one
//! declared before it, and counts what each stage puts out.

use vstd::prelude::*;
use crate::archive::EncoderConfiguration;
use crate::error::Error;
use crate::writer::EncodedStream;

verus! {

/// What coder `j` of a chain reads: the chain's input for the last coder, else
/// the output of the coder declared after it.
pub open spec fn stage_input(stages: Seq<Vec<u8>>, input: Vec<u8>, j: int) -> Vec<u8> {
    if j + 1 == stages.len() {
        input
    } else {
        stages[j + 1]
    }
}

/// Whether `stages[k]` is an output that coder `offset + k` of `methods` can
/// give for what it reads.
pub open spec fn stage_ran<F: Fn(&EncoderConfiguration, &Vec<u8>) -> Result<Vec<u8>, Error>>(
    coder: &F,
    methods: Seq<EncoderConfiguration>,
    input: Vec<u8>,
    stages: Seq<Vec<u8>>,
    offset: int,
    k: int,
) -> bool {
    call_ensures(
        *coder,
        (&methods[offset + k], &stage_input(stages, input, k)),
        Ok::<Vec<u8>, Error>(stages[k]),
    )
}

/// Whether `stages` are outputs that the coders of `methods` can give, one
/// after another, when the chain reads `input`.
pub open spec fn chain_outputs<F: Fn(&EncoderConfiguration, &Vec<u8>) -> Result<Vec<u8>, Error>>(
    coder: &F,
    methods: Seq<EncoderConfiguration>,
    input: Vec<u8>,
    stages: Seq<Vec<u8>>,
) -> bool {
    &&& stages.len() == methods.len()
    &&& forall|j: int|
        0 <= j < methods.len() ==> #[trigger] stage_ran(coder, methods, input, stages, 0, j)
}

/// Whether coder `j` of `methods` failed with `error` on what it read, after
/// the coders declared after it gave `tail`, one after another, when the chain
/// read `input`.
pub open spec fn stage_failed<F: Fn(&EncoderConfiguration, &Vec<u8>) -> Result<Vec<u8>, Error>>(
    coder: &F,
    methods: Seq<EncoderConfiguration>,
    input: Vec<u8>,
    tail: Seq<Vec<u8>>,
    j: int,
    error: Error,
) -> bool {
    &&& 0 <= j < methods.len()
    &&& tail.len() == methods.len() - 1 - j
    &&& forall|k: int|
        0 <= k < tail.len() ==> #[trigger] stage_ran(coder, methods, input, tail, j + 1, k)
    &&& call_ensures(
        *coder,
        (
            &methods[j],
            &(if tail.len() == 0 {
                input
            } else {
                tail[0]
            }),
        ),
        Err::<Vec<u8>, Error>(error),
    )
}

/// The sizes of all stages but the first, in declaration order.
pub open spec fn later_sizes(stages: Seq<Vec<u8>>) -> Seq<u64> {
    Seq::new((stages.len() - 1) as nat, |j: int| stages[j + 1]@.len() as u64)
}

/// Runs `input` through the chain `methods`.
///
/// On success the stream holds the first coder's output and the sizes of the
/// other coders' outputs. The first coder that fails ends the run with the
/// error that it gave for what it read: the outputs of the coders that ran
/// before it, each fed to the next.
pub fn run_encoder_chain<F: Fn(&EncoderConfiguration, &Vec<u8>) -> Result<Vec<u8>, Error>>(
    methods: &Vec<EncoderConfiguration>,
    input: &Vec<u8>,
    coder: &F,
) -> (result: Result<EncodedStream, Error>)
    requires
        methods@.len() >= 1,
        forall|method: &EncoderConfiguration, bytes: &Vec<u8>|
            call_requires(*coder, (method, bytes)),
    ensures
        match result {
            Ok(stream) => exists|stages: Seq<Vec<u8>>|
                {
                    &&& #[trigger] chain_outputs(coder, methods@, *input, stages)
                    &&& stream.packed == stages[0]
                    &&& stream.stage_sizes@ == later_sizes(stages)
                },
            Err(error) => exists|j: int, tail: Seq<Vec<u8>>| #[trigger]
                stage_failed(coder, methods@, *input, tail, j, error),
        },
{
    let n = methods.len();
    let mut stage_sizes: Vec<u64> = Vec::new();
    let mut k: usize = 1;
    while k < n
        invariant
            1 <= k <= n,
            stage_sizes@.len() == k - 1,
        decreases n - k,
    {
        stage_sizes.push(0);
        k = k + 1;
    }
    let mut current = match coder(&methods[n - 1], input) {
        Ok(out) => out,
        Err(error) => {
            assert(stage_failed(coder, methods@, *input, Seq::empty(), n - 1, error));
            return Err(error);
        },
    };
    let ghost mut tail: Seq<Vec<u8>> = seq![current];
    let mut j: usize = n - 1;
    proof {
        assert(stage_ran(coder, methods@, *input, tail, j as int, 0));
        assert(stage_sizes@.subrange(j as int, n - 1) =~= later_sizes(tail));
    }
    while j > 0
        invariant
            j < n == methods@.len(),
            stage_sizes@.len() == n - 1,
            tail.len() == n - j,
            tail[0] == current,
            forall|method: &EncoderConfiguration, bytes: &Vec<u8>|
                call_requires(*coder, (method, bytes)),
            forall|k: int|
                0 <= k < tail.len() ==> #[trigger] stage_ran(
                    coder,
                    methods@,
                    *input,
                    tail,
                    j as int,
                    k,
                ),
            stage_sizes@.subrange(j as int, n - 1) == later_sizes(tail),
        decreases j,
    {
        let ghost sizes_before = stage_sizes@;
        stage_sizes.set(j - 1, current.len() as u64);
        let out = match coder(&methods[j - 1], &current) {
            Ok(out) => out,
            Err(error) => {
                assert(stage_failed(coder, methods@, *input, tail, j - 1, error));
                return Err(error);
            },
        };
        proof {
            let longer = seq![out] + tail;
            assert forall|k: int| 0 <= k < longer.len() implies #[trigger] stage_ran(
                coder,
                methods@,
                *input,
                longer,
                j - 1,
                k,
            ) by {
                if k > 0 {
                    assert(stage_ran(coder, methods@, *input, tail, j as int, k - 1));
                    assert(longer[k] == tail[k - 1]);
                    assert(stage_input(longer, *input, k) == stage_input(tail, *input, k - 1));
                } else {
                    assert(stage_input(longer, *input, 0) == current);
                }
            }
            assert(stage_sizes@.subrange(j - 1, n - 1) =~= later_sizes(longer)) by {
                assert forall|k: int| 0 <= k < n - j implies stage_sizes@.subrange(j - 1, n - 1)[k]
                    == later_sizes(longer)[k] by {
                    if k > 0 {
                        assert(sizes_before.subrange(j as int, n - 1)[k - 1] == later_sizes(
                            tail,
                        )[k - 1]);
                        assert(longer[k + 1] == tail[k]);
                    } else {
                        assert(longer[1] == tail[0]);
                    }
                }
            }
            tail = longer;
        }
        current = out;
        j = j - 1;
    }
    proof {
        assert(chain_outputs(coder, methods@, *input, tail));
        assert(stage_sizes@.subrange(0, n - 1) =~= stage_sizes@);
    }
    Ok(EncodedStream { packed: current, stage_sizes })
}

} // verus!
