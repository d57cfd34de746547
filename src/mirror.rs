use vstd::prelude::*;
use vstd::string::StringExecFns;

verus! {

broadcast use vstd::string::group_string_axioms;

/// A record of the mirror: the text of a key and the text of its value.
pub type Record = (Seq<char>, Seq<char>);

/// The line that holds one record: `<key>=<value>`.
pub open spec fn record_line(r: Record) -> Seq<char> {
    r.0 + seq!['='] + r.1
}

/// The mirror text of `recs`: one line per record, each ended by a newline.
pub open spec fn encode_records(recs: Seq<Record>) -> Seq<char>
    decreases recs.len(),
{
    if recs.len() == 0 {
        Seq::empty()
    } else {
        encode_records(recs.drop_last()) + record_line(recs.last()) + seq!['\n']
    }
}

/// The pieces of `t` between newlines; one more piece than `t` has newlines.
pub open spec fn segments(t: Seq<char>) -> Seq<Seq<char>>
    decreases t.len(),
{
    if t.len() == 0 {
        seq![Seq::empty()]
    } else {
        let prev = segments(t.drop_last());
        if t.last() == '\n' {
            prev.push(Seq::empty())
        } else {
            prev.update(prev.len() - 1, prev.last().push(t.last()))
        }
    }
}

/// The lines of `t`: its segments, less an empty one after a final newline.
pub open spec fn lines(t: Seq<char>) -> Seq<Seq<char>> {
    let s = segments(t);
    if s.last().len() == 0 {
        s.drop_last()
    } else {
        s
    }
}

/// `i` is the place of the first `=` of `line`.
pub open spec fn is_first_separator(line: Seq<char>, i: int) -> bool {
    &&& 0 <= i < line.len()
    &&& line[i] == '='
    &&& forall|j: int| 0 <= j < i ==> line[j] != '='
}

/// The record of a line, split once at its first `=`; none for a line
/// without `=`.
pub open spec fn parse_record(line: Seq<char>) -> Option<Record> {
    if line.contains('=') {
        let i = choose|i: int| is_first_separator(line, i);
        Some((line.take(i), line.skip(i + 1)))
    } else {
        None
    }
}

/// `line` less one carriage return at its end, if it has one.
pub open spec fn strip_cr(line: Seq<char>) -> Seq<char> {
    if line.len() > 0 && line.last() == '\r' {
        line.drop_last()
    } else {
        line
    }
}

/// The records of `ls` in order, each line less a final carriage return,
/// lines that hold none skipped.
pub open spec fn parse_lines(ls: Seq<Seq<char>>) -> Seq<Record>
    decreases ls.len(),
{
    if ls.len() == 0 {
        Seq::empty()
    } else {
        let prev = parse_lines(ls.drop_last());
        match parse_record(strip_cr(ls.last())) {
            Some(r) => prev.push(r),
            None => prev,
        }
    }
}

/// The records that the mirror text `t` holds.
pub open spec fn decode_records(t: Seq<char>) -> Seq<Record> {
    parse_lines(lines(t))
}

/// The views of a sequence of string pairs.
pub open spec fn text_pairs(s: Seq<(String, String)>) -> Seq<Record> {
    s.map_values(|p: (String, String)| (p.0@, p.1@))
}

/// A record that the mirror keeps as it is: no `=` and no newline in the key,
/// no newline in the value, and no carriage return at the value's end.
pub open spec fn storable(r: Record) -> bool {
    &&& !r.0.contains('=')
    &&& !r.0.contains('\n')
    &&& !r.1.contains('\n')
    &&& !(r.1.len() > 0 && r.1.last() == '\r')
}

proof fn lemma_segments_nonempty(t: Seq<char>)
    ensures
        segments(t).len() >= 1,
    decreases t.len(),
{
    if t.len() > 0 {
        lemma_segments_nonempty(t.drop_last());
    }
}

/// Text without newlines extends the last segment.
proof fn lemma_segments_extend(t: Seq<char>, l: Seq<char>)
    requires
        !l.contains('\n'),
    ensures
        segments(t + l) == segments(t).update(
            segments(t).len() - 1,
            segments(t).last() + l,
        ),
    decreases l.len(),
{
    lemma_segments_nonempty(t);
    if l.len() == 0 {
        assert(t + l =~= t);
        assert(segments(t).last() + l =~= segments(t).last());
        assert(segments(t).update(segments(t).len() - 1, segments(t).last()) =~= segments(t));
    } else {
        let l0 = l.drop_last();
        let c = l.last();
        assert(!l0.contains('\n')) by {
            if l0.contains('\n') {
                let i = choose|i: int| 0 <= i < l0.len() && l0[i] == '\n';
                assert(l[i] == '\n');
            }
        }
        assert(c != '\n') by {
            assert(l[l.len() - 1] == c);
        }
        lemma_segments_extend(t, l0);
        lemma_segments_nonempty(t + l0);
        assert((t + l).drop_last() =~= t + l0);
        assert((t + l).last() == c);
        let st = segments(t);
        let prev = segments(t + l0);
        assert(prev == st.update(st.len() - 1, st.last() + l0));
        assert(prev.len() == st.len());
        assert(prev.last() == st.last() + l0);
        assert(segments(t + l) == prev.update(prev.len() - 1, prev.last().push(c)));
        assert((st.last() + l0).push(c) =~= st.last() + l);
        assert(segments(t + l) =~= segments(t).update(
            segments(t).len() - 1,
            segments(t).last() + l,
        ));
    }
}

proof fn lemma_segments_of_encoding(recs: Seq<Record>)
    requires
        forall|i: int| 0 <= i < recs.len() ==> storable(#[trigger] recs[i]),
    ensures
        segments(encode_records(recs)) == recs.map_values(|r: Record| record_line(r)).push(
            Seq::empty(),
        ),
    decreases recs.len(),
{
    let lines_of = recs.map_values(|r: Record| record_line(r));
    if recs.len() == 0 {
        assert(segments(encode_records(recs)) =~= lines_of.push(Seq::empty()));
    } else {
        let prev = recs.drop_last();
        let r = recs.last();
        assert(storable(r)) by {
            assert(recs[recs.len() - 1] == r);
        }
        assert forall|i: int| 0 <= i < prev.len() implies storable(#[trigger] prev[i]) by {
            assert(prev[i] == recs[i]);
        }
        lemma_segments_of_encoding(prev);
        let line = record_line(r);
        assert(!line.contains('\n')) by {
            if line.contains('\n') {
                let i = choose|i: int| 0 <= i < line.len() && line[i] == '\n';
                if i < r.0.len() {
                    assert(r.0[i] == '\n');
                } else if i > r.0.len() {
                    assert(r.1[i - r.0.len() - 1] == '\n');
                }
            }
        }
        let e = encode_records(prev);
        lemma_segments_extend(e, line);
        let before = prev.map_values(|r: Record| record_line(r));
        assert(Seq::<char>::empty() + line =~= line);
        assert(segments(e + line) =~= before.push(line));
        assert(encode_records(recs) =~= (e + line).push('\n'));
        assert((e + line).push('\n').drop_last() =~= e + line);
        assert(lines_of =~= before.push(line));
    }
}

proof fn lemma_parse_line_of(r: Record)
    requires
        storable(r),
    ensures
        parse_record(strip_cr(record_line(r))) == Some(r),
{
    let line = record_line(r);
    assert(strip_cr(line) == line) by {
        if r.1.len() > 0 {
            assert(line.last() == r.1.last());
        } else {
            assert(line.last() == '=');
        }
    }
    let k = r.0.len() as int;
    assert(line[k] == '=');
    assert(is_first_separator(line, k)) by {
        assert forall|j: int| 0 <= j < k implies line[j] != '=' by {
            assert(line[j] == r.0[j]);
        }
    }
    let c = choose|c: int| is_first_separator(line, c);
    assert(c == k) by {
        if c < k {
            assert(line[c] == r.0[c]);
        } else if c > k {
            assert(line[k] != '=');
        }
    }
    assert(line.take(k) =~= r.0);
    assert(line.skip(k + 1) =~= r.1);
}

proof fn lemma_parse_lines_of(recs: Seq<Record>)
    requires
        forall|i: int| 0 <= i < recs.len() ==> storable(#[trigger] recs[i]),
    ensures
        parse_lines(recs.map_values(|r: Record| record_line(r))) == recs,
    decreases recs.len(),
{
    let ls = recs.map_values(|r: Record| record_line(r));
    if recs.len() == 0 {
        assert(parse_lines(ls) =~= recs);
    } else {
        let prev = recs.drop_last();
        assert forall|i: int| 0 <= i < prev.len() implies storable(#[trigger] prev[i]) by {
            assert(prev[i] == recs[i]);
        }
        lemma_parse_lines_of(prev);
        assert(ls.drop_last() =~= prev.map_values(|r: Record| record_line(r)));
        assert(storable(recs[recs.len() - 1]));
        lemma_parse_line_of(recs.last());
        assert(prev.push(recs.last()) =~= recs);
    }
}

/// Decoding the mirror text of storable records gives back those records, in
/// their order.
pub proof fn lemma_mirror_round_trip(recs: Seq<Record>)
    requires
        forall|i: int| 0 <= i < recs.len() ==> storable(#[trigger] recs[i]),
    ensures
        decode_records(encode_records(recs)) == recs,
{
    lemma_segments_of_encoding(recs);
    let ls = recs.map_values(|r: Record| record_line(r));
    assert(ls.push(Seq::<char>::empty()).drop_last() =~= ls);
    lemma_parse_lines_of(recs);
}

/// Relies on String::push: appends one character.
#[verifier::external_body]
pub(crate) fn push_char(s: &mut String, c: char)
    ensures
        final(s)@ == old(s)@.push(c),
{
    s.push(c);
}

fn chars_of(text: &str) -> (r: Vec<char>)
    ensures
        r@ == text@,
{
    let mut out: Vec<char> = Vec::new();
    for c in it: text.chars()
        invariant
            it.seq() == text@,
            out@ == text@.take(it.index() as int),
    {
        out.push(c);
    }
    proof {
        assert(out@ =~= text@);
    }
    out
}

/// The characters `cs[from..to]` as a string.
fn string_of(cs: &Vec<char>, from: usize, to: usize) -> (r: String)
    requires
        from <= to <= cs.len(),
    ensures
        r@ == cs@.subrange(from as int, to as int),
{
    let mut out = String::new();
    let mut i = from;
    while i < to
        invariant
            from <= i <= to <= cs.len(),
            out@ == cs@.subrange(from as int, i as int),
        decreases to - i,
    {
        push_char(&mut out, cs[i]);
        proof {
            assert(cs@.subrange(from as int, i + 1) =~= cs@.subrange(from as int, i as int).push(
                cs@[i as int],
            ));
        }
        i = i + 1;
    }
    out
}

/// The record of one line, less a final carriage return, split at its first `=`.
fn record_of_line(line: &Vec<char>) -> (r: Option<(String, String)>)
    ensures
        match r {
            Some(p) => parse_record(strip_cr(line@)) == Some((p.0@, p.1@)),
            None => parse_record(strip_cr(line@)) is None,
        },
{
    let mut end = line.len();
    if end > 0 && line[end - 1] == '\r' {
        end = end - 1;
    }
    let ghost l = strip_cr(line@);
    proof {
        assert(l =~= line@.take(end as int));
    }
    let mut i: usize = 0;
    while i < end && line[i] != '='
        invariant
            i <= end <= line.len(),
            l =~= line@.take(end as int),
            forall|j: int| 0 <= j < i ==> l[j] != '=',
        decreases end - i,
    {
        i = i + 1;
    }
    if i == end {
        proof {
            if l.contains('=') {
                let j = choose|j: int| 0 <= j < l.len() && l[j] == '=';
                assert(l[j] != '=');
            }
        }
        None
    } else {
        let key = string_of(line, 0, i);
        let value = string_of(line, i + 1, end);
        proof {
            assert(is_first_separator(l, i as int));
            let c = choose|c: int| is_first_separator(l, c);
            assert(c == i) by {
                if c < i {
                    assert(l[c] != '=');
                } else if c > i {
                    assert(l[i as int] != '=');
                }
            }
            assert(key@ =~= l.take(i as int));
            assert(value@ =~= l.skip(i + 1));
        }
        Some((key, value))
    }
}

/// The mirror text of `records`: `<key>=<value>` and a newline for each, in order.
pub fn encode(records: &Vec<(String, String)>) -> (r: String)
    ensures
        r@ == encode_records(text_pairs(records@)),
{
    let mut out = String::new();
    for i in 0..records.len()
        invariant
            out@ == encode_records(text_pairs(records@.take(i as int))),
    {
        let ghost before = out@;
        out.append(records[i].0.as_str());
        push_char(&mut out, '=');
        out.append(records[i].1.as_str());
        push_char(&mut out, '\n');
        proof {
            let p = text_pairs(records@.take(i + 1));
            assert(p.drop_last() =~= text_pairs(records@.take(i as int)));
            assert(p.last() == (records@[i as int].0@, records@[i as int].1@));
            assert(out@ =~= before + record_line(p.last()) + seq!['\n']);
        }
    }
    proof {
        assert(records@.take(records.len() as int) =~= records@);
    }
    out
}

/// The records of the mirror text `text`, in order. The text is read line by
/// line, less one carriage return at its end; each line is split once
/// at its first `=`, and a line without `=` is skipped.
pub fn decode(text: &str) -> (r: Vec<(String, String)>)
    ensures
        text_pairs(r@) == decode_records(text@),
{
    let cs = chars_of(text);
    let mut recs: Vec<(String, String)> = Vec::new();
    let mut line: Vec<char> = Vec::new();
    let ghost done: Seq<Seq<char>> = Seq::empty();
    let mut i: usize = 0;
    proof {
        assert(cs@.take(0) =~= Seq::<char>::empty());
        assert(done.push(line@) =~= seq![Seq::<char>::empty()]);
    }
    while i < cs.len()
        invariant
            i <= cs.len(),
            segments(cs@.take(i as int)) == done.push(line@),
            text_pairs(recs@) == parse_lines(done),
        decreases cs.len() - i,
    {
        let c = cs[i];
        proof {
            assert(cs@.take(i + 1).drop_last() =~= cs@.take(i as int));
            assert(cs@.take(i + 1).last() == c);
        }
        if c == '\n' {
            let ghost old_recs = recs@;
            match record_of_line(&line) {
                Some(p) => {
                    recs.push(p);
                },
                None => {},
            }
            proof {
                assert(done.push(line@).drop_last() =~= done);
                assert(text_pairs(recs@) =~= parse_lines(done.push(line@))) by {
                    if recs@.len() > old_recs.len() {
                        assert(recs@.drop_last() =~= old_recs);
                    } else {
                        assert(recs@ =~= old_recs);
                    }
                }
                done = done.push(line@);
            }
            line = Vec::new();
            proof {
                assert(done.push(line@) =~= segments(cs@.take(i + 1)));
            }
        } else {
            line.push(c);
            proof {
                let prev = done.push(line@.drop_last());
                assert(line@.drop_last().push(c) =~= line@);
                assert(prev.update(prev.len() - 1, prev.last().push(c)) =~= done.push(line@));
            }
        }
        i = i + 1;
    }
    proof {
        assert(cs@.take(cs.len() as int) =~= text@);
    }
    if line.len() > 0 {
        let ghost old_recs = recs@;
        match record_of_line(&line) {
            Some(p) => {
                recs.push(p);
            },
            None => {},
        }
        proof {
            assert(done.push(line@).drop_last() =~= done);
            if recs@.len() > old_recs.len() {
                assert(recs@.drop_last() =~= old_recs);
            } else {
                assert(recs@ =~= old_recs);
            }
            assert(text_pairs(recs@) =~= parse_lines(done.push(line@)));
        }
    } else {
        proof {
            assert(done.push(line@).drop_last() =~= done);
        }
    }
    recs
}

} // verus!
