use vstd::prelude::*;

use crate::lines::{has_no_newline, joined, lines_of, PendingLines};

verus! {

/// How a file's size changed since it was last observed.
#[derive(Debug, Clone, Copy, PartialEq, Eq, Structural)]
pub enum ModificationType {
    /// The file is strictly larger: content was appended.
    Added,
    /// The file is strictly smaller: it was truncated or replaced.
    Removed,
    /// The size is the same.
    NoChange,
}

/// The classification of a size change from `old_size` to `new_size`.
pub open spec fn classify(old_size: u64, new_size: u64) -> ModificationType {
    if new_size > old_size {
        ModificationType::Added
    } else if new_size < old_size {
        ModificationType::Removed
    } else {
        ModificationType::NoChange
    }
}

/// The tailing state of one watched file.
///
/// Everything before `cursor` has been forwarded already; `old_size` is the
/// size seen at the last refresh. Both start at the end of the file, so only
/// content written after the watch began is shipped.
pub struct StatefulFile {
    file_name: String,
    old_size: u64,
    cursor: u64,
}

impl StatefulFile {
    /// The cursor never lies beyond the last observed end of the file.
    pub open spec fn wf(&self) -> bool {
        self.spec_cursor() <= self.spec_old_size()
    }

    pub closed spec fn spec_file_name(&self) -> Seq<char> {
        self.file_name@
    }

    pub closed spec fn spec_old_size(&self) -> u64 {
        self.old_size
    }

    pub closed spec fn spec_cursor(&self) -> u64 {
        self.cursor
    }

    /// Starts tailing a file of `size` bytes from its current end.
    pub fn new(file_name: String, size: u64) -> (r: StatefulFile)
        ensures
            r.wf(),
            r.spec_file_name() == file_name@,
            r.spec_old_size() == size,
            r.spec_cursor() == size,
    {
        StatefulFile { file_name, old_size: size, cursor: size }
    }

    pub fn file_name(&self) -> (r: &String)
        ensures
            r@ == self.spec_file_name(),
    {
        &self.file_name
    }

    pub fn old_size(&self) -> (r: u64)
        ensures
            r == self.spec_old_size(),
    {
        self.old_size
    }

    pub fn cursor(&self) -> (r: u64)
        ensures
            r == self.spec_cursor(),
    {
        self.cursor
    }

    /// Compares a freshly read size against the last observed one.
    pub fn modification_type(&self, current_size: u64) -> (r: ModificationType)
        ensures
            r == classify(self.spec_old_size(), current_size),
    {
        if current_size > self.old_size {
            ModificationType::Added
        } else if current_size < self.old_size {
            ModificationType::Removed
        } else {
            ModificationType::NoChange
        }
    }

    /// Records `current_size` as the last observed size. The cursor must
    /// already lie within it (reset it first after a shrink).
    pub fn update_metadata(&mut self, current_size: u64)
        requires
            old(self).spec_cursor() <= current_size,
        ensures
            final(self).wf(),
            final(self).spec_old_size() == current_size,
            final(self).spec_cursor() == old(self).spec_cursor(),
            final(self).spec_file_name() == old(self).spec_file_name(),
    {
        self.old_size = current_size;
    }

    /// The offset at which the next read starts.
    pub fn seek_to_cursor(&self) -> (r: u64)
        ensures
            r == self.spec_cursor(),
    {
        self.cursor
    }

    /// Moves the cursor to `position`, the offset just after the content
    /// that has been forwarded.
    pub fn update_cursor(&mut self, position: u64)
        requires
            position <= old(self).spec_old_size(),
        ensures
            final(self).wf(),
            final(self).spec_cursor() == position,
            final(self).spec_old_size() == old(self).spec_old_size(),
            final(self).spec_file_name() == old(self).spec_file_name(),
    {
        self.cursor = position;
    }

    /// Starts over from the beginning of the file.
    pub fn reset_cursor(&mut self)
        ensures
            final(self).wf(),
            final(self).spec_cursor() == 0,
            final(self).spec_old_size() == old(self).spec_old_size(),
            final(self).spec_file_name() == old(self).spec_file_name(),
    {
        self.cursor = 0;
    }

    /// Reconciles the state with a freshly read size: classifies the change,
    /// restarts from offset 0 when the file shrank, and records the new size.
    /// Afterwards the cursor is where the next read begins.
    ///
    /// Only sizes are compared: a file that was truncated and then grew past
    /// its old size counts as grown, and a replaced file that is smaller is
    /// read again from its start, which may ship lines a second time.
    pub fn begin_cycle(&mut self, current_size: u64) -> (r: ModificationType)
        requires
            old(self).wf(),
        ensures
            r == classify(old(self).spec_old_size(), current_size),
            final(self).wf(),
            final(self).spec_old_size() == current_size,
            final(self).spec_cursor() == (if r == ModificationType::Removed {
                0
            } else {
                old(self).spec_cursor()
            }),
            final(self).spec_file_name() == old(self).spec_file_name(),
    {
        let r = self.modification_type(current_size);
        match r {
            ModificationType::Removed => self.reset_cursor(),
            _ => {},
        }
        self.update_metadata(current_size);
        r
    }

    /// Ends a cycle whose data was read from the cursor on: the cursor moves
    /// just past the last accepted line, never past unread content.
    pub fn finish_cycle(&mut self, lines: &PendingLines)
        requires
            old(self).wf(),
            lines.wf(),
            old(self).spec_cursor() + lines.data().len() <= old(self).spec_old_size(),
        ensures
            final(self).wf(),
            final(self).spec_cursor() == old(self).spec_cursor() + lines.spec_consumed(),
            final(self).spec_old_size() == old(self).spec_old_size(),
            final(self).spec_file_name() == old(self).spec_file_name(),
    {
        let position = self.cursor + lines.consumed() as u64;
        self.update_cursor(position);
    }
}

/// The views of a list of lines.
pub open spec fn lines_view(v: Seq<Vec<u8>>) -> Seq<Seq<u8>> {
    v.map_values(|l: Vec<u8>| l@)
}

/// Where a cycle starts reading: offset 0 after a shrink, else the cursor.
pub open spec fn cycle_start(cursor: u64, kind: ModificationType) -> int {
    if kind == ModificationType::Removed {
        0
    } else {
        cursor as int
    }
}

/// Handles one change notification for `sf`, whose file now holds `content`.
///
/// The change is classified, the cursor restarts at 0 if the file shrank,
/// and the complete lines from the cursor on are offered to the sink in
/// order: `accepted[i]` is the sink's answer to the `i`-th line, and a line
/// without an answer counts as refused. Offering stops at the first refusal.
/// Returns the classification and the lines the sink accepted; the cursor
/// ends just after the last of them.
pub fn follow(sf: &mut StatefulFile, content: &Vec<u8>, accepted: &Vec<bool>) -> (r: (
    ModificationType,
    Vec<Vec<u8>>,
))
    requires
        old(sf).wf(),
    ensures
        r.0 == classify(old(sf).spec_old_size(), content@.len() as u64),
        final(sf).wf(),
        final(sf).spec_old_size() == content@.len(),
        final(sf).spec_file_name() == old(sf).spec_file_name(),
        ({
            let start = cycle_start(old(sf).spec_cursor(), r.0);
            let fw = lines_view(r.1@);
            let avail = lines_of(content@.subrange(start, content@.len() as int));
            &&& start <= content@.len()
            &&& fw.len() <= avail.len()
            &&& fw == avail.take(fw.len() as int)
            &&& forall|k: int| 0 <= k < fw.len() ==> k < accepted@.len() && accepted@[k]
            &&& fw.len() < avail.len() ==> !(fw.len() < accepted@.len()
                && accepted@[fw.len() as int])
            &&& final(sf).spec_cursor() == start + joined(fw).len()
            &&& fw.len() == avail.len() ==> has_no_newline(
                content@.subrange(final(sf).spec_cursor() as int, content@.len() as int),
            )
        }),
{
    let size = content.len() as u64;
    let kind = sf.begin_cycle(size);
    let start = sf.seek_to_cursor();
    let ghost avail_data = content@.subrange(start as int, content@.len() as int);
    let mut data: Vec<u8> = Vec::new();
    let mut k: usize = start as usize;
    while k < content.len()
        invariant
            start <= k <= content@.len(),
            data@ == content@.subrange(start as int, k as int),
        decreases content@.len() - k,
    {
        data.push(content[k]);
        k = k + 1;
        proof {
            assert(data@ =~= content@.subrange(start as int, k as int));
        }
    }
    let mut lines = PendingLines::new(data);
    let mut out: Vec<Vec<u8>> = Vec::new();
    let mut stop = false;
    while !stop
        invariant
            lines.wf(),
            lines.data() == avail_data,
            lines_view(out@) == lines.forwarded(),
            out@.len() <= accepted@.len(),
            forall|j: int| 0 <= j < out@.len() ==> accepted@[j],
            stop ==> (lines.pending().len() == 0 || !(out@.len() < accepted@.len()
                && accepted@[out@.len() as int])),
        decreases lines.pending().len() + (if stop {
            0int
        } else {
            1int
        }),
    {
        match lines.next_line() {
            None => {
                stop = true;
            },
            Some(line) => {
                let i = out.len();
                if i < accepted.len() && accepted[i] {
                    let ghost before = out@;
                    assert(i < accepted@.len() && accepted@[i as int]);
                    lines.accept();
                    out.push(line);
                    proof {
                        assert(lines_view(out@) =~= lines.forwarded());
                        assert forall|j: int| 0 <= j < out@.len() implies j < accepted@.len()
                            && accepted@[j] by {
                            if j < before.len() {
                                assert(before[j] == out@[j]);
                            } else {
                                assert(j == i);
                            }
                        }
                    }
                } else {
                    stop = true;
                }
            },
        }
    }
    proof {
        lines.lemma_partition();
        let fw = lines.forwarded();
        assert(lines_of(avail_data).take(fw.len() as int) =~= fw);
        if lines.pending().len() == 0 {
            let tail = avail_data.skip(lines.spec_consumed() as int);
            crate::lines::lemma_lines_of_split(tail);
            assert(joined(lines_of(tail)) =~= Seq::<u8>::empty());
            assert(tail.subrange(0, tail.len() as int) =~= tail);
            assert(content@.subrange(start + lines.spec_consumed(), content@.len() as int) =~= tail);
        }
    }
    sf.finish_cycle(&lines);
    (kind, out)
}

} // verus!
