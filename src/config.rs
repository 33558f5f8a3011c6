use vstd::prelude::*;
use crate::loc::Loc;
use crate::world::{World, apply_set, frontier_closed, lemma_apply_set_closed};

verus! {

/// A configuration held a character that is neither of its two cell markers,
/// a line feed nor a carriage return.
#[derive(PartialEq, Eq, Structural, Clone, Copy, Debug)]
pub enum ParseError {
    MalformedConfiguration { character: char, row: i64, col: i64 },
}

/// Reading the characters `s` of a configuration from the top-left cell: the
/// cursor's row and column after them and the cells set so far, or the first
/// character that is not allowed, with the cursor's place when it came.
pub open spec fn scan(s: Seq<char>, dead_char: char, alive_char: char) -> Result<
    (int, int, Map<(int, int), bool>),
    (char, int, int),
>
    decreases s.len(),
{
    if s.len() == 0 {
        Ok((0, 0, Map::empty()))
    } else {
        match scan(s.drop_last(), dead_char, alive_char) {
            Err(e) => Err(e),
            Ok((row, col, m)) => {
                let c = s.last();
                if c == dead_char {
                    Ok((row, col + 1, apply_set(m, (row, col), false)))
                } else if c == alive_char {
                    Ok((row, col + 1, apply_set(m, (row, col), true)))
                } else if c == '\n' {
                    Ok((row + 1, 0, m))
                } else if c == '\r' {
                    Ok((row, col, m))
                } else {
                    Err((c, row, col))
                }
            },
        }
    }
}

proof fn lemma_scan_bounds(s: Seq<char>, dead_char: char, alive_char: char)
    ensures
        scan(s, dead_char, alive_char) matches Ok((row, col, m)) ==> 0 <= row <= s.len() && 0
            <= col <= s.len() && frontier_closed(m),
    decreases s.len(),
{
    if s.len() > 0 {
        lemma_scan_bounds(s.drop_last(), dead_char, alive_char);
        if let Ok((row, col, m)) = scan(s.drop_last(), dead_char, alive_char) {
            lemma_apply_set_closed(m, (row, col), false);
            lemma_apply_set_closed(m, (row, col), true);
        }
    }
}

impl World {
    /// A world whose current generation is read from a grid of text:
    /// `dead_char` and `alive_char` mark the cells of a row, a line feed ends
    /// the row and a carriage return is skipped. Any other character is an
    /// error that gives the character and the row and column where it stood.
    pub fn from_configuration(data: &str, dead_char: char, alive_char: char) -> (r: Result<
        World,
        ParseError,
    >)
        requires
            data@.len() < i64::MAX,
        ensures
            match scan(data@, dead_char, alive_char) {
                Ok((_, _, m)) => r matches Ok(w) && w.current_cells() == m && w.next_cells()
                    == Map::<(int, int), bool>::empty() && w.wf(),
                Err((c, row, col)) => r == Err::<World, ParseError>(
                    ParseError::MalformedConfiguration { character: c, row: row as i64, col: col as i64 },
                ),
            },
    {
        let mut world = World::new();
        let mut row: i64 = 0;
        let mut col: i64 = 0;
        proof {
            assert(data@.take(0) =~= Seq::<char>::empty());
        }
        for c in it: data.chars()
            invariant
                it.seq() == data@,
                data@.len() < i64::MAX,
                scan(data@.take(it.index()), dead_char, alive_char) == Ok::<
                    (int, int, Map<(int, int), bool>),
                    (char, int, int),
                >((row as int, col as int, world.next_cells())),
                world.current_cells() == Map::<(int, int), bool>::empty(),
                world.wf(),
        {
            let ghost prefix = data@.take(it.index() + 1);
            proof {
                assert(prefix.drop_last() =~= data@.take(it.index()));
                assert(prefix.last() == c);
                lemma_scan_bounds(data@.take(it.index()), dead_char, alive_char);
            }
            if c == dead_char {
                world.set(&Loc::new(row, col), false);
                col = col + 1;
            } else if c == alive_char {
                world.set(&Loc::new(row, col), true);
                col = col + 1;
            } else if c == '\n' {
                row = row + 1;
                col = 0;
            } else if c == '\r' {
            } else {
                proof {
                    assert(data@.take(it.index() + 1) =~= prefix);
                    lemma_scan_rest(data@, it.index() + 1, dead_char, alive_char);
                }
                return Err(ParseError::MalformedConfiguration { character: c, row, col });
            }
        }
        proof {
            assert(data@.take(data@.len() as int) =~= data@);
        }
        world.swap_buffers();
        Ok(world)
    }
}

/// Once a prefix fails, the whole text fails with the same error.
proof fn lemma_scan_rest(s: Seq<char>, i: int, dead_char: char, alive_char: char)
    requires
        0 <= i <= s.len(),
        scan(s.take(i), dead_char, alive_char) is Err,
    ensures
        scan(s, dead_char, alive_char) == scan(s.take(i), dead_char, alive_char),
    decreases s.len() - i,
{
    if i < s.len() {
        assert(s.take(i + 1).drop_last() =~= s.take(i));
        lemma_scan_rest(s, i + 1, dead_char, alive_char);
    } else {
        assert(s.take(i) =~= s);
    }
}

} // verus!
