//! Names and places of the files of a job.
use vstd::prelude::*;

use crate::text::{decimal_padded, decimal_text, digit_char, push_decimal, zero_padded};

verus! {

/// The name of the checkpoint with a sequence number.
pub open spec fn checkpoint_name_text(sequence: u64) -> Seq<char> {
    "checkpoint-"@ + zero_padded(decimal_text(sequence as nat), 20) + ".json"@
}

pub fn checkpoint_filename(sequence: u64) -> (name: String)
    ensures
        name@ == checkpoint_name_text(sequence),
{
    let mut name = String::new();
    name.append("checkpoint-");
    let digits = decimal_padded(sequence, 20);
    name.append(digits.as_str());
    name.append(".json");
    assert(name@ =~= checkpoint_name_text(sequence));
    name
}

/// A path below a directory; a name that starts at the root stands for itself.
pub open spec fn joined_path(directory: Seq<char>, name: Seq<char>) -> Seq<char> {
    if directory.len() == 0 || name.len() > 0 && name[0] == '/' {
        name
    } else if directory.last() == '/' {
        directory + name
    } else {
        directory.push('/') + name
    }
}

fn join_path(directory: &str, name: &str) -> (path: String)
    ensures
        path@ == joined_path(directory@, name@),
{
    proof {
        reveal_strlit("/");
    }
    let mut path = String::new();
    if name.unicode_len() > 0 && name.get_char(0) == '/' {
        path.append(name);
        assert(path@ =~= name@);
        return path;
    }
    let length = directory.unicode_len();
    path.append(directory);
    if length > 0 && directory.get_char(length - 1) != '/' {
        path.append("/");
    }
    path.append(name);
    assert(path@ =~= joined_path(directory@, name@));
    path
}

/// The files of a job live in one directory.
#[derive(Debug, Clone)]
pub struct MultiwayBatchJobStore {
    pub directory: String,
}

/// The name of a JSON file.
pub open spec fn json_name(stem: Seq<char>) -> Seq<char> {
    stem + ".json"@
}

impl MultiwayBatchJobStore {
    pub fn directory(&self) -> (directory: &str)
        ensures
            directory@ == self.directory@,
    {
        self.directory.as_str()
    }

    pub fn manifest_path(&self) -> (path: String)
        ensures
            path@ == joined_path(self.directory@, json_name("manifest"@)),
    {
        let mut name = String::new();
        name.append("manifest");
        name.append(".json");
        assert(name@ =~= json_name("manifest"@));
        join_path(self.directory.as_str(), name.as_str())
    }

    pub fn checkpoints_directory(&self) -> (path: String)
        ensures
            path@ == joined_path(self.directory@, "checkpoints"@),
    {
        join_path(self.directory.as_str(), "checkpoints")
    }

    /// Where a checkpoint lies: below the directory of the checkpoints, unless its
    /// name is an absolute path.
    pub fn checkpoint_path(&self, name: &str) -> (path: String)
        ensures
            path@ == joined_path(joined_path(self.directory@, "checkpoints"@), name@),
    {
        let directory = self.checkpoints_directory();
        join_path(directory.as_str(), name)
    }
}

/// The place of a file that is about to replace `name` in `parent`.
pub open spec fn temporary_path_text(
    parent: Seq<char>,
    name: Seq<char>,
    process: u64,
    timestamp: u64,
    counter: u64,
) -> Seq<char> {
    joined_path(
        parent,
        "."@ + name + ".tmp-"@ + decimal_text(process as nat) + "-"@ + decimal_text(
            timestamp as nat,
        ) + "-"@ + decimal_text(counter as nat),
    )
}

pub fn unique_temporary_path(
    parent: &str,
    name: &str,
    process: u64,
    timestamp: u64,
    counter: u64,
) -> (path: String)
    ensures
        path@ == temporary_path_text(parent@, name@, process, timestamp, counter),
{
    let mut file = String::new();
    file.append(".");
    file.append(name);
    file.append(".tmp-");
    push_decimal(&mut file, process);
    file.append("-");
    push_decimal(&mut file, timestamp);
    file.append("-");
    push_decimal(&mut file, counter);
    assert(file@ =~= "."@ + name@ + ".tmp-"@ + decimal_text(process as nat) + "-"@ + decimal_text(
        timestamp as nat,
    ) + "-"@ + decimal_text(counter as nat));
    join_path(parent, file.as_str())
}

/// The text comes first in the order of its characters.
pub open spec fn text_below(left: Seq<char>, right: Seq<char>) -> bool
    decreases left.len(),
{
    if right.len() == 0 {
        false
    } else if left.len() == 0 {
        true
    } else if left[0] != right[0] {
        left[0] < right[0]
    } else {
        text_below(left.skip(1), right.skip(1))
    }
}

fn is_text_below(left: &str, right: &str) -> (yes: bool)
    ensures
        yes == text_below(left@, right@),
{
    let left_length = left.unicode_len();
    let right_length = right.unicode_len();
    let mut index: usize = 0;
    assert(left@.skip(0) =~= left@);
    assert(right@.skip(0) =~= right@);
    while index < left_length && index < right_length
        invariant
            left_length == left@.len(),
            right_length == right@.len(),
            index <= left_length,
            index <= right_length,
            text_below(left@, right@) == text_below(
                left@.skip(index as int),
                right@.skip(index as int),
            ),
        decreases left_length - index,
    {
        let a = left.get_char(index);
        let b = right.get_char(index);
        assert(left@.skip(index as int)[0] == a);
        assert(right@.skip(index as int)[0] == b);
        if a != b {
            return a < b;
        }
        assert(left@.skip(index as int).skip(1) =~= left@.skip(index as int + 1));
        assert(right@.skip(index as int).skip(1) =~= right@.skip(index as int + 1));
        index = index + 1;
    }
    index < right_length
}

pub open spec fn starts_with(text: Seq<char>, prefix: Seq<char>) -> bool {
    text.len() >= prefix.len() && text.take(prefix.len() as int) == prefix
}

pub open spec fn ends_with(text: Seq<char>, suffix: Seq<char>) -> bool {
    text.len() >= suffix.len() && text.skip(text.len() - suffix.len()) == suffix
}

/// The name is that of a checkpoint file.
pub open spec fn names_checkpoint(name: Seq<char>) -> bool {
    starts_with(name, "checkpoint-"@) && ends_with(name, ".json"@)
}

fn has_piece(text: &str, at: usize, piece: &str) -> (yes: bool)
    requires
        at + piece@.len() <= text@.len(),
    ensures
        yes == (text@.subrange(at as int, at + piece@.len()) == piece@),
{
    let length = piece.unicode_len();
    let ghost part = text@.subrange(at as int, at + piece@.len());
    let whole: usize = text.unicode_len();
    let mut index: usize = 0;
    while index < length
        invariant
            length == piece@.len(),
            whole == text@.len(),
            at + length <= whole,
            part == text@.subrange(at as int, at + piece@.len()),
            index <= length,
            forall|i: int| 0 <= i < index ==> part[i] == piece@[i],
        decreases length - index,
    {
        if text.get_char(at + index) != piece.get_char(index) {
            assert(part[index as int] != piece@[index as int]);
            return false;
        }
        index = index + 1;
    }
    assert(part =~= piece@);
    true
}

pub fn is_checkpoint_name(name: &str) -> (yes: bool)
    ensures
        yes == names_checkpoint(name@),
{
    proof {
        reveal_strlit("checkpoint-");
        reveal_strlit(".json");
    }
    let length = name.unicode_len();
    if length < 11 || length < 5 {
        return false;
    }
    assert(name@.subrange(0, 11) =~= name@.take(11));
    assert(name@.subrange(length - 5, length as int) =~= name@.skip(length - 5));
    has_piece(name, 0, "checkpoint-") && has_piece(name, length - 5, ".json")
}

/// No name that is left comes before the one at `index`.
pub open spec fn oldest(names: Seq<String>, taken: Seq<usize>, index: int) -> bool {
    &&& 0 <= index < names.len()
    &&& !taken.contains(index as usize)
    &&& forall|j: int|
        0 <= j < names.len() && !taken.contains(j as usize) ==> !text_below(
            (#[trigger] names[j])@,
            names[index]@,
        )
}

fn is_taken(taken: &Vec<usize>, index: usize) -> (yes: bool)
    ensures
        yes == taken@.contains(index),
{
    let mut at: usize = 0;
    while at < taken.len()
        invariant
            at <= taken@.len(),
            forall|i: int| 0 <= i < at ==> taken@[i] != index,
        decreases taken.len() - at,
    {
        if taken[at] == index {
            assert(taken@[at as int] == index);
            return true;
        }
        at = at + 1;
    }
    false
}

proof fn lemma_below_irreflexive(text: Seq<char>)
    ensures
        !text_below(text, text),
    decreases text.len(),
{
    if text.len() > 0 {
        lemma_below_irreflexive(text.skip(1));
    }
}

proof fn lemma_below_transitive(a: Seq<char>, b: Seq<char>, c: Seq<char>)
    requires
        !text_below(b, a),
        !text_below(c, b),
    ensures
        !text_below(c, a),
    decreases a.len() + b.len() + c.len(),
{
    if a.len() > 0 && c.len() > 0 && b.len() > 0 {
        if a[0] == b[0] && b[0] == c[0] {
            lemma_below_transitive(a.skip(1), b.skip(1), c.skip(1));
        }
    }
}

fn find_oldest(names: &Vec<String>, taken: &Vec<usize>) -> (found: Option<usize>)
    ensures
        match found {
            Some(index) => oldest(names@, taken@, index as int),
            None => forall|j: int|
                0 <= j < names@.len() ==> taken@.contains(#[trigger] (j as usize)),
        },
{
    let mut best: Option<usize> = None;
    let mut index: usize = 0;
    while index < names.len()
        invariant
            index <= names@.len(),
            match best {
                Some(at) => {
                    &&& at < index
                    &&& !taken@.contains(at)
                    &&& forall|j: int|
                        0 <= j < index && !taken@.contains(j as usize) ==> !text_below(
                            (#[trigger] names@[j])@,
                            names@[at as int]@,
                        )
                },
                None => forall|j: int|
                    0 <= j < index ==> taken@.contains(#[trigger] (j as usize)),
            },
        decreases names.len() - index,
    {
        if !is_taken(taken, index) {
            match best {
                None => {
                    proof {
                        lemma_below_irreflexive(names@[index as int]@);
                        assert forall|j: int|
                            0 <= j < index + 1 && !taken@.contains(j as usize) implies !text_below(
                            (#[trigger] names@[j])@,
                            names@[index as int]@,
                        ) by {
                            if j < index {
                                assert(taken@.contains(j as usize));
                            }
                        }
                    }
                    best = Some(index);
                },
                Some(at) => {
                    if is_text_below(names[index].as_str(), names[at].as_str()) {
                        proof {
                            lemma_below_irreflexive(names@[index as int]@);
                            assert forall|j: int|
                                0 <= j < index + 1 && !taken@.contains(j as usize) implies
                                !text_below((#[trigger] names@[j])@, names@[index as int]@) by {
                                if j < index {
                                    lemma_below_asymmetric(
                                        names@[index as int]@,
                                        names@[at as int]@,
                                    );
                                    lemma_below_transitive(
                                        names@[index as int]@,
                                        names@[at as int]@,
                                        names@[j]@,
                                    );
                                }
                            }
                        }
                        best = Some(index);
                    }
                },
            }
        }
        index = index + 1;
    }
    best
}

proof fn lemma_below_asymmetric(a: Seq<char>, b: Seq<char>)
    requires
        text_below(a, b),
    ensures
        !text_below(b, a),
    decreases a.len() + b.len(),
{
    if a.len() > 0 && b.len() > 0 && a[0] == b[0] {
        lemma_below_asymmetric(a.skip(1), b.skip(1));
    }
}

/// Which files to remove so that `keep` are left: the oldest, one after the
/// other.
pub fn files_to_rotate(names: &Vec<String>, keep: usize) -> (removed: Vec<usize>)
    ensures
        removed@.len() == if names@.len() > keep {
            names@.len() - keep
        } else {
            0
        },
        forall|k: int|
            0 <= k < removed@.len() ==> oldest(
                names@,
                removed@.take(k),
                #[trigger] removed@[k] as int,
            ),
{
    let mut removed: Vec<usize> = Vec::new();
    while names.len() - removed.len() > keep
        invariant
            removed@.len() <= names@.len(),
            removed@.len() > 0 ==> names@.len() - removed@.len() >= keep,
            forall|k: int|
                0 <= k < removed@.len() ==> oldest(
                    names@,
                    removed@.take(k),
                    #[trigger] removed@[k] as int,
                ),
        decreases names.len() - removed.len(),
    {
        let ghost before = removed@;
        match find_oldest(names, &removed) {
            Some(index) => {
                removed.push(index);
                proof {
                    assert forall|k: int| 0 <= k < removed@.len() implies oldest(
                        names@,
                        removed@.take(k),
                        #[trigger] removed@[k] as int,
                    ) by {
                        assert(removed@.take(k) =~= before.take(k));
                        if k == before.len() {
                            assert(before.take(k) =~= before);
                        } else {
                            assert(removed@[k] == before[k]);
                        }
                    }
                }
            },
            None => {
                proof {
                    lemma_not_all_taken(names.len(), removed@);
                }
                return removed;
            },
        }
    }
    removed
}

/// A list of all numbers is at least as long as there are numbers.
proof fn lemma_not_all_taken(count: usize, taken: Seq<usize>)
    requires
        forall|j: int| 0 <= j < count ==> taken.contains(#[trigger] (j as usize)),
    ensures
        taken.len() >= count,
{
    let all = Seq::new(count as nat, |j: int| j as usize);
    let full = all.to_set();
    let used = taken.to_set();
    taken.lemma_cardinality_of_set();
    assert(all.no_duplicates());
    all.unique_seq_to_set();
    assert(full.subset_of(used)) by {
        assert forall|x: usize| full.contains(x) implies used.contains(x) by {
            let j = choose|j: int| 0 <= j < all.len() && all[j] == x;
            assert(taken.contains(j as usize));
        }
    }
    vstd::set_lib::lemma_len_subset(full, used);
}

/// Digits of a number in a field of a width.
spec fn field(value: nat, width: nat) -> Seq<char>
    decreases width,
{
    if width == 0 {
        Seq::empty()
    } else {
        field(value / 10, (width - 1) as nat).push(digit_char((value % 10) as int))
    }
}

spec fn power_of_ten(exponent: nat) -> nat
    decreases exponent,
{
    if exponent == 0 {
        1
    } else {
        10 * power_of_ten((exponent - 1) as nat)
    }
}

proof fn lemma_field_of_zero(width: nat)
    ensures
        field(0, width) == Seq::new(width, |i: int| '0'),
    decreases width,
{
    if width > 0 {
        lemma_field_of_zero((width - 1) as nat);
        assert(field(0, width) =~= Seq::new(width, |i: int| '0'));
    } else {
        assert(field(0, 0) =~= Seq::new(0, |i: int| '0'));
    }
}

proof fn lemma_padded_is_field(value: nat, width: nat)
    requires
        value < power_of_ten(width),
        width > 0,
    ensures
        zero_padded(decimal_text(value), width) == field(value, width),
        decimal_text(value).len() <= width,
        field(value, width).len() == width,
    decreases width,
{
    lemma_field_length(value, width);
    if value < 10 {
        lemma_field_of_zero((width - 1) as nat);
        assert(value / 10 == 0);
        assert(value % 10 == value);
        assert(zero_padded(decimal_text(value), width) =~= field(value, width));
    } else {
        assert(width > 1) by {
            if width == 1 {
                assert(power_of_ten(1) == 10 * power_of_ten(0));
            }
        }
        assert(power_of_ten(width) == 10 * power_of_ten((width - 1) as nat));
        lemma_padded_is_field(value / 10, (width - 1) as nat);
        let shorter = decimal_text(value / 10);
        assert(zero_padded(decimal_text(value), width) =~= zero_padded(
            shorter,
            (width - 1) as nat,
        ).push(digit_char((value % 10) as int)));
    }
}

proof fn lemma_field_length(value: nat, width: nat)
    ensures
        field(value, width).len() == width,
    decreases width,
{
    if width > 0 {
        lemma_field_length(value / 10, (width - 1) as nat);
    }
}

proof fn lemma_below_push(a: Seq<char>, b: Seq<char>, x: char, y: char)
    requires
        a.len() == b.len(),
        text_below(a, b) || a == b && x < y,
    ensures
        text_below(a.push(x), b.push(y)),
    decreases a.len(),
{
    if a.len() > 0 {
        assert(a.push(x)[0] == a[0]);
        assert(b.push(y)[0] == b[0]);
        if a[0] == b[0] {
            assert(a.push(x).skip(1) =~= a.skip(1).push(x));
            assert(b.push(y).skip(1) =~= b.skip(1).push(y));
            lemma_below_push(a.skip(1), b.skip(1), x, y);
        }
    } else {
        assert(a.push(x)[0] == x);
        assert(b.push(y)[0] == y);
        assert(!text_below(a, b));
    }
}

proof fn lemma_field_order(left: nat, right: nat, width: nat)
    requires
        left < right,
        right < power_of_ten(width),
    ensures
        text_below(field(left, width), field(right, width)),
    decreases width,
{
    if width > 0 {
        let a = field(left / 10, (width - 1) as nat);
        let b = field(right / 10, (width - 1) as nat);
        lemma_field_length(left / 10, (width - 1) as nat);
        lemma_field_length(right / 10, (width - 1) as nat);
        assert(power_of_ten(width) == 10 * power_of_ten((width - 1) as nat));
        if left / 10 < right / 10 {
            lemma_field_order(left / 10, right / 10, (width - 1) as nat);
        }
        lemma_below_push(
            a,
            b,
            digit_char((left % 10) as int),
            digit_char((right % 10) as int),
        );
    }
}

proof fn lemma_below_extended(prefix: Seq<char>, a: Seq<char>, b: Seq<char>, suffix: Seq<char>)
    requires
        text_below(a, b),
        a.len() == b.len(),
    ensures
        text_below(prefix + a + suffix, prefix + b + suffix),
    decreases prefix.len() + a.len(),
{
    let left = prefix + a + suffix;
    let right = prefix + b + suffix;
    if prefix.len() > 0 {
        assert(left[0] == prefix[0]);
        assert(right[0] == prefix[0]);
        assert(left.skip(1) =~= prefix.skip(1) + a + suffix);
        assert(right.skip(1) =~= prefix.skip(1) + b + suffix);
        lemma_below_extended(prefix.skip(1), a, b, suffix);
    } else {
        assert(left[0] == a[0]);
        assert(right[0] == b[0]);
        if a[0] == b[0] {
            assert(left.skip(1) =~= prefix + a.skip(1) + suffix);
            assert(right.skip(1) =~= prefix + b.skip(1) + suffix);
            lemma_below_extended(prefix, a.skip(1), b.skip(1), suffix);
        }
    }
}

/// The names of checkpoints are ordered as their sequence numbers: the oldest
/// file is the one with the lowest number.
pub proof fn lemma_checkpoint_names_ascend(earlier: u64, later: u64)
    requires
        earlier < later,
    ensures
        text_below(checkpoint_name_text(earlier), checkpoint_name_text(later)),
{
    reveal_with_fuel(power_of_ten, 21);
    assert(power_of_ten(20) == 100_000_000_000_000_000_000nat);
    lemma_padded_is_field(earlier as nat, 20);
    lemma_padded_is_field(later as nat, 20);
    lemma_field_order(earlier as nat, later as nat, 20);
    lemma_field_length(earlier as nat, 20);
    lemma_field_length(later as nat, 20);
    lemma_below_extended(
        "checkpoint-"@,
        field(earlier as nat, 20),
        field(later as nat, 20),
        ".json"@,
    );
}

} // verus!
