//! Run-length coding: behind two equal bytes stands the length of their run.

use vstd::prelude::*;

verus! {

/// No run is written longer than this.
pub const MAX_SEQUENCE_SIZE: u8 = 255;

/// Where the coder stands behind a part of its input: the byte read last,
/// and the length of the run of that byte that is not yet written.
pub struct RunState {
    pub previous_byte: Option<u8>,
    pub current_sequence: nat,
}

/// The state behind `data`.
pub open spec fn run_state(data: Seq<u8>) -> RunState
    decreases data.len(),
{
    if data.len() == 0 {
        RunState { previous_byte: None, current_sequence: 0 }
    } else {
        let before = run_state(data.drop_last());
        let counted = if before.previous_byte == Some(data.last()) {
            before.current_sequence + 1
        } else {
            1
        };
        RunState {
            previous_byte: Some(data.last()),
            current_sequence: if counted == MAX_SEQUENCE_SIZE {
                1
            } else {
                counted
            },
        }
    }
}

/// What is written while `data` is read; the run that is still open is not
/// written yet. A byte that does not go on the run before it is written as
/// it is, behind the byte and the length of that run if the run had two
/// bytes or more. A run that reaches 255 bytes is written at once.
pub open spec fn run_output(data: Seq<u8>) -> Seq<u8>
    decreases data.len(),
{
    if data.len() == 0 {
        Seq::empty()
    } else {
        let before = run_state(data.drop_last());
        let written = run_output(data.drop_last());
        let byte = data.last();
        let step = if before.previous_byte == Some(byte) {
            written
        } else if before.current_sequence >= 2 {
            written + seq![before.previous_byte.unwrap(), before.current_sequence as u8, byte]
        } else {
            written.push(byte)
        };
        let counted = if before.previous_byte == Some(byte) {
            before.current_sequence + 1
        } else {
            1
        };
        if counted == MAX_SEQUENCE_SIZE {
            step + seq![byte, counted as u8]
        } else {
            step
        }
    }
}

/// The run-length code of `data`.
pub open spec fn run_coded(data: Seq<u8>) -> Seq<u8> {
    let state = run_state(data);
    if state.current_sequence >= 2 {
        run_output(data) + seq![state.previous_byte.unwrap(), state.current_sequence as u8]
    } else {
        run_output(data)
    }
}

/// A run in progress is shorter than the longest run, and is a run of the
/// last byte read.
pub proof fn lemma_run_state(data: Seq<u8>)
    ensures
        run_state(data).current_sequence < MAX_SEQUENCE_SIZE,
        data.len() > 0 ==> run_state(data).previous_byte == Some(data.last()),
        data.len() > 0 ==> run_state(data).current_sequence >= 1,
    decreases data.len(),
{
    if data.len() > 0 {
        lemma_run_state(data.drop_last());
    }
}

/// A run-length code is at most twice as long as what it stands for, and
/// two bytes more.
pub proof fn lemma_run_coded_length(data: Seq<u8>)
    ensures
        run_output(data).len() <= 2 * data.len(),
        run_coded(data).len() <= 2 * data.len() + 2,
    decreases data.len(),
{
    if data.len() > 0 {
        lemma_run_coded_length(data.drop_last());
        lemma_run_output_room(data);
    }
}

/// What is written behind `data` leaves room for the run that is open: it
/// takes at most two bytes for each byte read, less the bytes of the open
/// run that are not written.
pub proof fn lemma_run_output_room(data: Seq<u8>)
    ensures
        run_output(data).len() + run_state(data).current_sequence <= 2 * data.len() + (
        if data.len() == 0 {
            0int
        } else {
            1int
        }),
    decreases data.len(),
{
    if data.len() > 0 {
        lemma_run_output_room(data.drop_last());
        lemma_run_state(data.drop_last());
    }
}

/// The run-length code of `data`.
pub fn apply(data: &[u8]) -> (result: Vec<u8>)
    ensures
        result@ == run_coded(data@),
{
    let mut result: Vec<u8> = Vec::new();
    let mut previous_byte: Option<u8> = None;
    let mut current_sequence: u8 = 0;
    let mut done: usize = 0;
    proof {
        assert(data@.take(0) =~= Seq::<u8>::empty());
    }
    while done < data.len()
        invariant
            done <= data.len(),
            previous_byte == run_state(data@.take(done as int)).previous_byte,
            current_sequence == run_state(data@.take(done as int)).current_sequence,
            result@ == run_output(data@.take(done as int)),
        decreases data.len() - done,
    {
        let byte = data[done];
        proof {
            lemma_run_state(data@.take(done as int));
            assert(data@.take(done + 1).drop_last() =~= data@.take(done as int));
        }
        let ghost written = result@;
        if Some(byte) == previous_byte {
            current_sequence += 1;
        } else {
            if current_sequence >= 2 {
                result.push(previous_byte.unwrap());
                result.push(current_sequence);
            }
            result.push(byte);
            current_sequence = 1;
        }
        if current_sequence == MAX_SEQUENCE_SIZE {
            result.push(byte);
            result.push(current_sequence);
            current_sequence = 1;
        }
        previous_byte = Some(byte);
        proof {
            assert(result@ =~= run_output(data@.take(done + 1)));
        }
        done += 1;
    }
    proof {
        assert(data@.take(done as int) =~= data@);
    }
    if current_sequence >= 2 {
        result.push(previous_byte.unwrap());
        result.push(current_sequence);
    }
    proof {
        assert(result@ =~= run_coded(data@));
    }
    result
}

/// Whether `data`, read from index `from` on behind the byte `previous`, is
/// a run-length code: behind two equal bytes stands a length of two or more.
pub open spec fn is_run_code(data: Seq<u8>, from: int, previous: Option<u8>) -> bool
    decreases data.len() - from,
{
    if from >= data.len() || from < 0 {
        true
    } else if Some(data[from]) == previous {
        from + 1 < data.len() && data[from + 1] >= 2 && is_run_code(data, from + 2, None)
    } else {
        is_run_code(data, from + 1, Some(data[from]))
    }
}

/// The bytes that the run-length code `data` stands for, read from index
/// `from` on behind the byte `previous`: each byte as it is, and behind two
/// equal bytes as many more of them as the length says above two.
pub open spec fn run_expanded(data: Seq<u8>, from: int, previous: Option<u8>) -> Seq<u8>
    decreases data.len() - from,
{
    if from >= data.len() || from < 0 {
        Seq::empty()
    } else if Some(data[from]) == previous {
        if from + 1 < data.len() {
            seq![data[from]] + Seq::new((data[from + 1] - 2) as nat, |k: int| data[from])
                + run_expanded(data, from + 2, None)
        } else {
            seq![data[from]]
        }
    } else {
        seq![data[from]] + run_expanded(data, from + 1, Some(data[from]))
    }
}

/// Whether `data` is a run-length code.
pub fn is_coded(data: &[u8]) -> (coded: bool)
    ensures
        coded == is_run_code(data@, 0, None),
{
    let mut previous_byte: Option<u8> = None;
    let mut i: usize = 0;
    while i < data.len()
        invariant
            i <= data.len(),
            is_run_code(data@, 0, None) == is_run_code(data@, i as int, previous_byte),
        decreases data.len() - i,
    {
        if Some(data[i]) == previous_byte {
            if i + 1 >= data.len() || data[i + 1] < 2 {
                return false;
            }
            previous_byte = None;
            i += 2;
        } else {
            previous_byte = Some(data[i]);
            i += 1;
        }
    }
    true
}

/// The bytes that the run-length code `data` stands for.
pub fn reverse(data: &[u8]) -> (result: Vec<u8>)
    requires
        is_run_code(data@, 0, None),
    ensures
        result@ == run_expanded(data@, 0, None),
{
    let mut result: Vec<u8> = Vec::new();
    let mut previous_byte: Option<u8> = None;
    let mut i: usize = 0;
    while i < data.len()
        invariant
            i <= data.len(),
            is_run_code(data@, i as int, previous_byte),
            run_expanded(data@, 0, None) == result@ + run_expanded(data@, i as int, previous_byte),
        decreases data.len() - i,
    {
        let ghost before = result@;
        let ghost rest = run_expanded(data@, i as int, previous_byte);
        result.push(data[i]);
        if Some(data[i]) == previous_byte {
            i += 1;
            let current_sequence = data[i];
            let mut k: u8 = 0;
            while k < current_sequence - 2
                invariant
                    0 < i < data.len(),
                    current_sequence >= 2,
                    k <= current_sequence - 2,
                    result@ == before.push(data[i - 1]) + Seq::new(
                        k as nat,
                        |j: int| data[i - 1],
                    ),
                decreases current_sequence - 2 - k,
            {
                result.push(data[i - 1]);
                k += 1;
                proof {
                    assert(result@ =~= before.push(data[i - 1]) + Seq::new(
                        k as nat,
                        |j: int| data[i - 1],
                    ));
                }
            }
            previous_byte = None;
            proof {
                assert(before + rest =~= result@ + run_expanded(data@, i + 1, None));
            }
        } else {
            previous_byte = Some(data[i]);
            proof {
                assert(before + rest =~= result@ + run_expanded(data@, i + 1, previous_byte));
            }
        }
        i += 1;
    }
    proof {
        assert(result@ + Seq::<u8>::empty() =~= result@);
    }
    result
}

/// The length of the run of equal bytes with which `data` ends.
pub open spec fn last_run(data: Seq<u8>) -> nat
    decreases data.len(),
{
    if data.len() == 0 {
        0
    } else if data.len() >= 2 && data[data.len() - 2] == data.last() {
        last_run(data.drop_last()) + 1
    } else {
        1
    }
}

/// No run of equal bytes in `data` is longer than 255 bytes.
pub open spec fn short_runs(data: Seq<u8>) -> bool
    decreases data.len(),
{
    data.len() == 0 || (short_runs(data.drop_last()) && last_run(data) <= MAX_SEQUENCE_SIZE)
}

/// `count` times the byte `byte`.
pub open spec fn copies(byte: u8, count: int) -> Seq<u8> {
    Seq::new(
        if count >= 0 {
            count as nat
        } else {
            0
        },
        |k: int| byte,
    )
}

/// The byte behind which a reader stands at the end of the run-length code
/// `data`, read from index `from` on behind the byte `previous`; none
/// behind a length.
pub open spec fn run_end(data: Seq<u8>, from: int, previous: Option<u8>) -> Option<u8>
    decreases data.len() - from,
{
    if from >= data.len() || from < 0 {
        previous
    } else if Some(data[from]) == previous {
        if from + 1 < data.len() {
            run_end(data, from + 2, None)
        } else {
            None
        }
    } else {
        run_end(data, from + 1, Some(data[from]))
    }
}

/// What stands behind a first part of a sequence is read as if the first
/// part were not there.
pub proof fn lemma_run_code_shift(code: Seq<u8>, more: Seq<u8>, from: int, previous: Option<u8>)
    requires
        0 <= from,
    ensures
        is_run_code(code + more, code.len() + from, previous) == is_run_code(more, from, previous),
        run_expanded(code + more, code.len() + from, previous) == run_expanded(
            more,
            from,
            previous,
        ),
    decreases more.len() - from,
{
    let all = code + more;
    let at = code.len() + from;
    if from < more.len() {
        assert(all[at] == more[from]);
        if Some(more[from]) == previous {
            if from + 1 < more.len() {
                assert(all[at + 1] == more[from + 1]);
                lemma_run_code_shift(code, more, from + 2, None);
            }
        } else {
            lemma_run_code_shift(code, more, from + 1, Some(more[from]));
        }
    }
}

/// A run-length code with more bytes behind it is read as the code, and
/// then the bytes behind it from where the code ends.
pub proof fn lemma_run_code_append(
    code: Seq<u8>,
    more: Seq<u8>,
    from: int,
    previous: Option<u8>,
)
    requires
        0 <= from <= code.len(),
        is_run_code(code, from, previous),
    ensures
        is_run_code(code + more, from, previous) == is_run_code(
            more,
            0,
            run_end(code, from, previous),
        ),
        run_expanded(code + more, from, previous) == run_expanded(code, from, previous)
            + run_expanded(more, 0, run_end(code, from, previous)),
    decreases code.len() - from,
{
    let all = code + more;
    if from == code.len() {
        lemma_run_code_shift(code, more, 0, previous);
        assert(Seq::<u8>::empty() + run_expanded(more, 0, previous) =~= run_expanded(
            more,
            0,
            previous,
        ));
    } else {
        assert(all[from] == code[from]);
        if Some(code[from]) == previous {
            assert(all[from + 1] == code[from + 1]);
            lemma_run_code_append(code, more, from + 2, None);
            let head = seq![code[from]] + Seq::new(
                (code[from + 1] - 2) as nat,
                |k: int| code[from],
            );
            assert(run_expanded(all, from, previous) =~= head + run_expanded(all, from + 2, None));
            assert(head + (run_expanded(code, from + 2, None) + run_expanded(
                more,
                0,
                run_end(code, from, previous),
            )) =~= (head + run_expanded(code, from + 2, None)) + run_expanded(
                more,
                0,
                run_end(code, from, previous),
            ));
        } else {
            lemma_run_code_append(code, more, from + 1, Some(code[from]));
            let head = seq![code[from]];
            assert(head + (run_expanded(code, from + 1, Some(code[from])) + run_expanded(
                more,
                0,
                run_end(code, from, previous),
            )) =~= (head + run_expanded(code, from + 1, Some(code[from]))) + run_expanded(
                more,
                0,
                run_end(code, from, previous),
            ));
        }
    }
}

/// What is written while bytes without a run longer than 255 are read is a
/// run-length code. It stands for the bytes read without the bytes of the
/// open run but its first, and it ends behind that first byte; where the
/// run has reached 255 bytes, it stands for all the bytes read and ends
/// behind a length.
pub proof fn lemma_run_output(data: Seq<u8>)
    requires
        short_runs(data),
    ensures
        is_run_code(run_output(data), 0, None),
        1 <= last_run(data) < MAX_SEQUENCE_SIZE ==> run_state(data).current_sequence == last_run(
            data,
        ) && run_end(run_output(data), 0, None) == Some(data.last()) && run_expanded(
            run_output(data),
            0,
            None,
        ) + copies(data.last(), last_run(data) - 1) == data,
        last_run(data) == 0 || last_run(data) == MAX_SEQUENCE_SIZE ==> run_state(
            data,
        ).current_sequence == last_run(data) / 255 && run_end(run_output(data), 0, None).is_none()
            && run_expanded(run_output(data), 0, None) == data,
        data.len() == 0 <==> last_run(data) == 0,
        last_run(data) <= MAX_SEQUENCE_SIZE,
    decreases data.len(),
{
    if data.len() == 0 {
        assert(data =~= Seq::<u8>::empty());
    } else {
        let before = data.drop_last();
        let byte = data.last();
        lemma_run_output(before);
        lemma_run_state(before);
        let written = run_output(before);
        let state = run_state(before);
        let read = run_expanded(written, 0, None);
        let end = run_end(written, 0, None);
        let run = last_run(before) as int;
        assert(data =~= before.push(byte));
        if state.previous_byte == Some(byte) {
            assert(before.len() >= 1 && before.last() == byte);
            assert(last_run(data) == run + 1);
            assert(run < 255);
            assert(state.current_sequence == run);
            assert(copies(byte, run - 1).push(byte) =~= copies(byte, run));
            assert(read + copies(byte, run) =~= (read + copies(byte, run - 1)).push(byte));
            if run + 1 == 255 {
                let tail = seq![byte, 255u8];
                assert(run_output(data) == written + tail);
                lemma_run_code_append(written, tail, 0, None);
                assert(is_run_code(tail, 2, None));
                assert(is_run_code(tail, 0, Some(byte)));
                assert(run_expanded(tail, 2, None) =~= Seq::<u8>::empty());
                assert(run_expanded(tail, 0, Some(byte)) =~= copies(byte, 254));
                assert(run_end(tail, 2, None).is_none());
                assert(run_end(tail, 0, Some(byte)).is_none());
                lemma_run_end_append(written, tail, 0, None);
            }
        } else {
            assert(last_run(data) == 1);
            assert(copies(byte, 0) =~= Seq::<u8>::empty());
            if state.current_sequence >= 2 {
                assert(before.len() > 0);
                assert(2 <= run < 255 && state.current_sequence == run);
                let old_byte = before.last();
                assert(state.previous_byte == Some(old_byte));
                let tail = seq![old_byte, run as u8, byte];
                assert(run_output(data) =~= written + tail);
                assert(tail[1] >= 2);
                lemma_run_code_append(written, tail, 0, None);
                lemma_run_end_append(written, tail, 0, None);
                assert(is_run_code(tail, 3, Some(byte)));
                assert(is_run_code(tail, 2, None));
                assert(is_run_code(tail, 0, Some(old_byte)));
                assert(run_expanded(tail, 3, Some(byte)) =~= Seq::<u8>::empty());
                assert(run_expanded(tail, 2, None) =~= seq![byte]);
                assert(run_expanded(tail, 0, Some(old_byte)) =~= copies(old_byte, run - 1).push(
                    byte,
                ));
                assert(run_end(tail, 3, Some(byte)) == Some(byte));
                assert(run_end(tail, 2, None) == Some(byte));
                assert(run_end(tail, 0, Some(old_byte)) == Some(byte));
                assert(read + copies(old_byte, run - 1).push(byte) =~= (read + copies(
                    old_byte,
                    run - 1,
                )).push(byte));
            } else {
                let tail = seq![byte];
                assert(run_output(data) =~= written + tail);
                lemma_run_code_append(written, tail, 0, None);
                lemma_run_end_append(written, tail, 0, None);
                assert(end != Some(byte));
                assert(is_run_code(tail, 1, Some(byte)));
                assert(is_run_code(tail, 0, end));
                assert(run_expanded(tail, 1, Some(byte)) =~= Seq::<u8>::empty());
                assert(run_expanded(tail, 0, end) =~= seq![byte]);
                assert(run_end(tail, 1, Some(byte)) == Some(byte));
                assert(run_end(tail, 0, end) == Some(byte));
                if run >= 1 && run < 255 {
                    assert(copies(before.last(), 0) =~= Seq::<u8>::empty());
                    assert(read + copies(before.last(), 0) =~= read);
                }
                assert(read + seq![byte] =~= read.push(byte));
            }
        }
    }
}

/// A run-length code with more bytes behind it ends where the bytes behind
/// it end, read from where the code ends.
pub proof fn lemma_run_end_append(code: Seq<u8>, more: Seq<u8>, from: int, previous: Option<u8>)
    requires
        0 <= from <= code.len(),
        is_run_code(code, from, previous),
    ensures
        run_end(code + more, from, previous) == run_end(more, 0, run_end(code, from, previous)),
    decreases code.len() - from,
{
    let all = code + more;
    if from == code.len() {
        lemma_run_end_shift(code, more, 0, previous);
    } else {
        assert(all[from] == code[from]);
        if Some(code[from]) == previous {
            lemma_run_end_append(code, more, from + 2, None);
        } else {
            lemma_run_end_append(code, more, from + 1, Some(code[from]));
        }
    }
}

/// The end of what stands behind a first part of a sequence is found as if
/// the first part were not there.
pub proof fn lemma_run_end_shift(code: Seq<u8>, more: Seq<u8>, from: int, previous: Option<u8>)
    requires
        0 <= from,
    ensures
        run_end(code + more, code.len() + from, previous) == run_end(more, from, previous),
    decreases more.len() - from,
{
    let all = code + more;
    let at = code.len() + from;
    if from < more.len() {
        assert(all[at] == more[from]);
        if Some(more[from]) == previous {
            if from + 1 < more.len() {
                lemma_run_end_shift(code, more, from + 2, None);
            }
        } else {
            lemma_run_end_shift(code, more, from + 1, Some(more[from]));
        }
    }
}

/// Round trip: the run-length code of bytes without a run longer than 255
/// is a run-length code, and stands for those bytes.
pub proof fn lemma_expanded_coded(data: Seq<u8>)
    requires
        short_runs(data),
    ensures
        is_run_code(run_coded(data), 0, None),
        run_expanded(run_coded(data), 0, None) == data,
{
    lemma_run_output(data);
    lemma_run_state(data);
    let written = run_output(data);
    let state = run_state(data);
    if state.current_sequence >= 2 {
        let byte = data.last();
        let run = last_run(data) as int;
        let tail = seq![byte, run as u8];
        lemma_run_code_append(written, tail, 0, None);
        assert(is_run_code(tail, 2, None));
        assert(is_run_code(tail, 0, Some(byte)));
        assert(run_expanded(tail, 2, None) =~= Seq::<u8>::empty());
        assert(run_expanded(tail, 0, Some(byte)) =~= copies(byte, run - 1));
    } else if data.len() > 0 && last_run(data) < 255 {
        assert(copies(data.last(), 0) =~= Seq::<u8>::empty());
        assert(run_expanded(written, 0, None) + copies(data.last(), 0) =~= run_expanded(
            written,
            0,
            None,
        ));
    }
}

} // verus!
