use vstd::prelude::*;
use vstd::string::*;

verus! {

broadcast use vstd::string::group_string_axioms;

/// The characters that separate fields: Unicode's White_Space set.
pub open spec fn is_blank(c: char) -> bool {
    let u = c as u32;
    ||| 0x09 <= u <= 0x0D
    ||| u == 0x20
    ||| u == 0x85
    ||| u == 0xA0
    ||| u == 0x1680
    ||| 0x2000 <= u <= 0x200A
    ||| u == 0x2028
    ||| u == 0x2029
    ||| u == 0x202F
    ||| u == 0x205F
    ||| u == 0x3000
}

/// Where the run of non-blank characters that starts at `i` ends.
pub open spec fn word_end(s: Seq<char>, i: int) -> int
    decreases s.len() - i,
{
    if i < 0 || i >= s.len() || is_blank(s[i]) {
        i
    } else {
        word_end(s, i + 1)
    }
}

/// The blank-separated fields of `s`, in order.
pub open spec fn fields(s: Seq<char>) -> Seq<Seq<char>>
    decreases s.len(),
{
    if s.len() == 0 {
        Seq::empty()
    } else if is_blank(s[0]) {
        fields(s.drop_first())
    } else {
        let e = word_end(s, 0);
        if 0 < e <= s.len() {
            seq![s.take(e)] + fields(s.skip(e))
        } else {
            Seq::empty()
        }
    }
}

/// Where the line that starts at `i` ends: the next newline or the end.
pub open spec fn line_end(s: Seq<char>, i: int) -> int
    decreases s.len() - i,
{
    if i < 0 || i >= s.len() || s[i] == '\n' {
        i
    } else {
        line_end(s, i + 1)
    }
}

/// The lines of `s`, without their newlines; a final newline ends the last
/// line rather than starting an empty one.
pub open spec fn lines(s: Seq<char>) -> Seq<Seq<char>>
    decreases s.len(),
{
    if s.len() == 0 {
        Seq::empty()
    } else {
        let e = line_end(s, 0);
        if 0 <= e < s.len() {
            seq![s.take(e)] + lines(s.skip(e + 1))
        } else {
            seq![s]
        }
    }
}

/// The sixth field of each of `ls` that has one.
pub open spec fn sixth_fields(ls: Seq<Seq<char>>) -> Seq<Seq<char>>
    decreases ls.len(),
{
    if ls.len() == 0 {
        Seq::empty()
    } else {
        sixth_fields(ls.drop_last()) + if fields(ls.last()).len() >= 6 {
            seq![fields(ls.last())[5]]
        } else {
            Seq::empty()
        }
    }
}

/// The mount points in a POSIX `df -P` report: below the header line, the
/// sixth field of each line that has six.
pub open spec fn mount_points_of(report: Seq<char>) -> Seq<Seq<char>> {
    if lines(report).len() == 0 {
        Seq::empty()
    } else {
        sixth_fields(lines(report).drop_first())
    }
}

proof fn lemma_word_end(s: Seq<char>, i: int, e: int)
    requires
        0 <= i <= e <= s.len(),
        forall|q: int| i <= q < e ==> !is_blank(s[q]),
        e == s.len() || is_blank(s[e]),
    ensures
        word_end(s, i) == e,
    decreases e - i,
{
    if i < e {
        lemma_word_end(s, i + 1, e);
    }
}

proof fn lemma_line_end(s: Seq<char>, i: int, e: int)
    requires
        0 <= i <= e <= s.len(),
        forall|q: int| i <= q < e ==> s[q] != '\n',
        e == s.len() || s[e] == '\n',
    ensures
        line_end(s, i) == e,
    decreases e - i,
{
    if i < e {
        lemma_line_end(s, i + 1, e);
    }
}

/// The sixth field of `line`, if it has six.
pub fn sixth_field(line: &str) -> (r: Option<String>)
    ensures
        r is Some <==> fields(line@).len() >= 6,
        r matches Some(f) ==> f@ == fields(line@)[5],
{
    let len = line.unicode_len();
    let mut pos: usize = 0;
    let mut count: usize = 0;
    let ghost mut found: Seq<Seq<char>> = Seq::empty();
    assert(line@.skip(0) =~= line@);
    while pos < len
        invariant
            pos <= len,
            len == line@.len(),
            count == found.len(),
            count < 6,
            fields(line@) == found + fields(line@.skip(pos as int)),
        decreases len - pos,
    {
        let ghost t = line@.skip(pos as int);
        if is_blank_char(line.get_char(pos)) {
            assert(t.drop_first() =~= line@.skip(pos + 1));
            pos = pos + 1;
        } else {
            let mut end: usize = pos + 1;
            while end < len && !is_blank_char(line.get_char(end))
                invariant
                    pos < end <= len,
                    len == line@.len(),
                    forall|q: int| pos <= q < end ==> !is_blank(line@[q]),
                decreases len - end,
            {
                end = end + 1;
            }
            proof {
                lemma_word_end(t, 0, end - pos);
                assert(t.take(end - pos) =~= line@.subrange(pos as int, end as int));
                assert(t.skip(end - pos) =~= line@.skip(end as int));
                assert(found + fields(t) =~= found.push(t.take(end - pos)) + fields(
                    line@.skip(end as int),
                ));
                found = found.push(t.take(end - pos));
            }
            if count == 5 {
                let word = line.substring_char(pos, end).to_string();
                assert(fields(line@)[5] == found[5]);
                return Some(word);
            }
            count = count + 1;
            pos = end;
        }
    }
    assert(line@.skip(pos as int) =~= Seq::<char>::empty());
    assert(fields(line@) =~= found);
    None
}

fn is_blank_char(c: char) -> (r: bool)
    ensures
        r == is_blank(c),
{
    let u = c as u32;
    (0x09 <= u && u <= 0x0D) || u == 0x20 || u == 0x85 || u == 0xA0 || u == 0x1680 || (0x2000
        <= u && u <= 0x200A) || u == 0x2028 || u == 0x2029 || u == 0x202F || u == 0x205F || u
        == 0x3000
}

/// The mount points that a POSIX `df -P` report lists, in its order.
pub fn mount_points(report: &str) -> (r: Vec<String>)
    ensures
        r@.len() == mount_points_of(report@).len(),
        forall|i: int| 0 <= i < r@.len() ==> (#[trigger] r@[i])@ == mount_points_of(report@)[i],
{
    let len = report.unicode_len();
    let mut pos: usize = 0;
    let mut past_header: bool = false;
    let mut r: Vec<String> = Vec::new();
    let ghost mut done: Seq<Seq<char>> = Seq::empty();
    assert(report@.skip(0) =~= report@);
    while pos < len
        invariant
            pos <= len,
            len == report@.len(),
            past_header == (done.len() > 0),
            lines(report@) == done + lines(report@.skip(pos as int)),
            done.len() == 0 ==> r@.len() == 0,
            done.len() > 0 ==> r@.len() == sixth_fields(done.drop_first()).len(),
            done.len() > 0 ==> forall|i: int| 0 <= i < r@.len() ==> (#[trigger] r@[i])@ == sixth_fields(done.drop_first())[i],
        decreases len - pos,
    {
        let ghost t = report@.skip(pos as int);
        let mut end: usize = pos;
        while end < len && report.get_char(end) != '\n'
            invariant
                pos <= end <= len,
                len == report@.len(),
                forall|q: int| pos <= q < end ==> report@[q] != '\n',
            decreases len - end,
        {
            end = end + 1;
        }
        let line = report.substring_char(pos, end);
        proof {
            lemma_line_end(t, 0, end - pos);
            assert(t.take(end - pos) =~= line@);
            if end < len {
                assert(t.skip(end - pos + 1) =~= report@.skip(end + 1));
                assert(lines(t) == seq![line@] + lines(report@.skip(end + 1)));
            } else {
                assert(t =~= line@);
                assert(report@.skip(len as int) =~= Seq::<char>::empty());
            }
        }
        let ghost before = done;
        let ghost before_r = r@;
        proof {
            done = done.push(line@);
        }
        if past_header {
            let sixth = sixth_field(line);
            proof {
                assert(done.drop_first() =~= before.drop_first().push(line@));
                assert(done.drop_first().drop_last() =~= before.drop_first());
            }
            match sixth {
                Some(f) => {
                    r.push(f);
                },
                None => {},
            }
            proof {
                assert forall|i: int| 0 <= i < r@.len() implies (#[trigger] r@[i])@ == sixth_fields(
                    done.drop_first(),
                )[i] by {
                    if i < before_r.len() {
                        assert(r@[i] == before_r[i]);
                    }
                }
            }
        } else {
            proof {
                assert(done.drop_first() =~= Seq::<Seq<char>>::empty());
            }
        }
        past_header = true;
        pos = if end < len {
            end + 1
        } else {
            end
        };
        proof {
            if end < len {
                assert(lines(report@) =~= done + lines(report@.skip(pos as int)));
            } else {
                assert(report@.skip(pos as int) =~= Seq::<char>::empty());
                assert(lines(report@) =~= done + lines(report@.skip(pos as int)));
            }
        }
    }
    assert(report@.skip(pos as int) =~= Seq::<char>::empty());
    assert(lines(report@) =~= done);
    r
}

} // verus!
