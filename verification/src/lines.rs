//! Line framing for the save format: text is a run of lines, each closed
//! by a line break; reading splits on exactly that character.

use vstd::prelude::*;

verus! {

/// A line that hides no line break, so that framing can recover it.
pub open spec fn no_newline(line: Seq<char>) -> bool {
    forall|i: int| 0 <= i < line.len() ==> #[trigger] line[i] != '\n'
}

/// Every line free of line breaks.
pub open spec fn all_no_newline(lines: Seq<Seq<char>>) -> bool {
    forall|i: int| 0 <= i < lines.len() ==> no_newline(#[trigger] lines[i])
}

/// Splitting text into lines, carrying the line read so far: a line break
/// closes the current line; text ending without one closes it too, and
/// text ending right after a line break adds no empty final line.
pub open spec fn split_from(s: Seq<char>, acc: Seq<char>) -> Seq<Seq<char>>
    decreases s.len(),
{
    if s.len() == 0 {
        if acc.len() == 0 {
            Seq::empty()
        } else {
            seq![acc]
        }
    } else if s[0] == '\n' {
        seq![acc] + split_from(s.drop_first(), Seq::empty())
    } else {
        split_from(s.drop_first(), acc.push(s[0]))
    }
}

/// The lines of a text.
pub open spec fn split_lines(s: Seq<char>) -> Seq<Seq<char>> {
    split_from(s, Seq::empty())
}

/// The text of a run of lines: each line followed by one line break.
pub open spec fn join_lines(lines: Seq<Seq<char>>) -> Seq<char>
    decreases lines.len(),
{
    if lines.len() == 0 {
        Seq::empty()
    } else {
        lines[0] + seq!['\n'] + join_lines(lines.drop_first())
    }
}

/// Joining distributes over concatenation of line runs.
proof fn lemma_join_append(a: Seq<Seq<char>>, b: Seq<Seq<char>>)
    ensures
        join_lines(a + b) == join_lines(a) + join_lines(b),
    decreases a.len(),
{
    if a.len() == 0 {
        assert(a + b =~= b);
        assert(join_lines(a) + join_lines(b) =~= join_lines(b));
    } else {
        lemma_join_append(a.drop_first(), b);
        assert((a + b).drop_first() =~= a.drop_first() + b);
        assert((a + b)[0] == a[0]);
        assert(join_lines(a + b) =~= join_lines(a) + join_lines(b));
    }
}

/// Splitting a text that starts with one break-free line and its line
/// break yields that line, whatever was read before it.
proof fn lemma_split_from_line(line: Seq<char>, rest: Seq<char>, acc: Seq<char>)
    requires
        no_newline(line),
    ensures
        split_from(line + seq!['\n'] + rest, acc) == seq![acc + line] + split_from(
            rest,
            Seq::empty(),
        ),
    decreases line.len(),
{
    let s = line + seq!['\n'] + rest;
    if line.len() == 0 {
        assert(s[0] == '\n');
        assert(s.drop_first() =~= rest);
        assert(acc + line =~= acc);
    } else {
        assert(s[0] == line[0]);
        assert(s.drop_first() =~= line.drop_first() + seq!['\n'] + rest);
        assert(no_newline(line.drop_first()));
        lemma_split_from_line(line.drop_first(), rest, acc.push(line[0]));
        assert(acc.push(line[0]) + line.drop_first() =~= acc + line);
    }
}

/// Splitting recovers exactly the lines that joining wrote, as long as no
/// line hides a line break.
pub proof fn lemma_split_join(lines: Seq<Seq<char>>)
    requires
        all_no_newline(lines),
    ensures
        split_lines(join_lines(lines)) == lines,
    decreases lines.len(),
{
    if lines.len() == 0 {
        assert(split_lines(join_lines(lines)) =~= lines);
    } else {
        lemma_split_from_line(lines[0], join_lines(lines.drop_first()), Seq::empty());
        lemma_split_join(lines.drop_first());
        assert(Seq::<char>::empty() + lines[0] =~= lines[0]);
        assert(seq![lines[0]] + lines.drop_first() =~= lines);
    }
}

/// Writes the lines out as one text, each line closed by a line break.
pub fn join_all(lines: &Vec<String>) -> (r: String)
    ensures
        r@ == join_lines(lines@.map_values(|l: String| l@)),
{
    let ghost ldata = lines@.map_values(|l: String| l@);
    let mut out = String::new();
    let n = lines.len();
    proof {
        reveal_strlit("\n");
        assert(out@ =~= join_lines(ldata.take(0)));
    }
    for i in 0..n
        invariant
            n == ldata.len(),
            ldata == lines@.map_values(|l: String| l@),
            out@ == join_lines(ldata.take(i as int)),
    {
        let ghost out0 = out@;
        out.append(lines[i].as_str());
        out.append("\n");
        proof {
            reveal_strlit("\n");
            assert(ldata[i as int] == lines@[i as int]@);
            assert(out@ == out0 + lines@[i as int]@ + "\n"@);
            assert("\n"@ =~= seq!['\n']);
            assert(ldata.take(i + 1) =~= ldata.take(i as int) + seq![ldata[i as int]]);
            lemma_join_append(ldata.take(i as int), seq![ldata[i as int]]);
            let single = seq![ldata[i as int]];
            assert(single.drop_first() =~= Seq::<Seq<char>>::empty());
            assert(single[0] == ldata[i as int]);
            assert(join_lines(Seq::<Seq<char>>::empty()) =~= Seq::<char>::empty());
            assert(join_lines(single) =~= ldata[i as int] + seq!['\n']);
            assert(join_lines(ldata.take(i + 1)) == out0 + (ldata[i as int] + seq!['\n']));
            assert(out@ =~= join_lines(ldata.take(i + 1)));
        }
    }
    proof {
        assert(ldata.take(n as int) =~= ldata);
    }
    out
}

/// Reads a text back as its lines.
pub fn split_all(s: &str) -> (r: Vec<String>)
    ensures
        r@.map_values(|l: String| l@) == split_lines(s@),
{
    let len = s.unicode_len();
    let mut out: Vec<String> = Vec::new();
    let mut start: usize = 0;
    let mut i: usize = 0;
    proof {
        assert(out@.map_values(|l: String| l@) =~= Seq::<Seq<char>>::empty());
        assert(s@.skip(0) =~= s@);
        assert(s@.subrange(0, 0) =~= Seq::<char>::empty());
        assert(Seq::<Seq<char>>::empty() + split_lines(s@) =~= split_lines(s@));
    }
    while i < len
        invariant
            start <= i <= len,
            len == s@.len(),
            split_lines(s@) == out@.map_values(|l: String| l@) + split_from(
                s@.skip(i as int),
                s@.subrange(start as int, i as int),
            ),
        decreases len - i,
    {
        let c = s.get_char(i);
        proof {
            assert(s@.skip(i as int)[0] == s@[i as int]);
            assert(s@.skip(i as int).drop_first() =~= s@.skip(i + 1));
        }
        if c == '\n' {
            let ghost prev = out@.map_values(|l: String| l@);
            let piece = s.substring_char(start, i);
            out.push(String::from_str(piece));
            proof {
                assert(out@.map_values(|l: String| l@) =~= prev + seq![
                    s@.subrange(start as int, i as int),
                ]);
                assert(s@.subrange(i + 1, i + 1) =~= Seq::<char>::empty());
                assert(prev + (seq![s@.subrange(start as int, i as int)] + split_from(
                    s@.skip(i + 1),
                    Seq::<char>::empty(),
                )) =~= (prev + seq![s@.subrange(start as int, i as int)]) + split_from(
                    s@.skip(i + 1),
                    Seq::<char>::empty(),
                ));
            }
            start = i + 1;
        } else {
            proof {
                assert(s@.subrange(start as int, i as int).push(s@[i as int]) =~= s@.subrange(
                    start as int,
                    i + 1,
                ));
            }
        }
        i = i + 1;
    }
    proof {
        assert(s@.skip(len as int) =~= Seq::<char>::empty());
    }
    if start < len {
        let ghost prev = out@.map_values(|l: String| l@);
        let piece = s.substring_char(start, len);
        out.push(String::from_str(piece));
        proof {
            assert(out@.map_values(|l: String| l@) =~= prev + seq![
                s@.subrange(start as int, len as int),
            ]);
            assert(split_from(Seq::<char>::empty(), s@.subrange(start as int, len as int))
                =~= seq![s@.subrange(start as int, len as int)]);
            assert(out@.map_values(|l: String| l@) =~= split_lines(s@));
        }
    } else {
        proof {
            assert(s@.subrange(start as int, len as int) =~= Seq::<char>::empty());
            assert(out@.map_values(|l: String| l@) + split_from(
                Seq::<char>::empty(),
                Seq::<char>::empty(),
            ) =~= out@.map_values(|l: String| l@));
        }
    }
    out
}

} // verus!
