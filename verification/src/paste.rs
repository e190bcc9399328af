use vstd::prelude::*;

verus! {

/// The views of one line per input, where an exhausted input reads `None`.
pub open spec fn line_views(lines: Seq<Option<Vec<u8>>>) -> Seq<Option<Seq<u8>>> {
    lines.map_values(
        |o: Option<Vec<u8>>|
            match o {
                Some(v) => Some(v@),
                None => None,
            },
    )
}

/// One output line: the input lines from `i` on, an exhausted input
/// contributing nothing, with the separator after every input but the last.
pub open spec fn pasted_from(lines: Seq<Option<Seq<u8>>>, sep: u8, i: int) -> Seq<u8>
    decreases lines.len() - i,
    when 0 <= i <= lines.len()
{
    if i >= lines.len() {
        seq![]
    } else {
        (match lines[i] {
            Some(l) => l,
            None => seq![],
        }) + (if i + 1 == lines.len() {
            seq![]
        } else {
            seq![sep]
        }) + pasted_from(lines, sep, i + 1)
    }
}

/// Concatenate one line of each input with the separator between fields,
/// as the `paste` command does. `None` exactly when every input is
/// exhausted; an exhausted input still yields its empty field.
pub fn paste_lines(lines: &Vec<Option<Vec<u8>>>, separator: u8) -> (r: Option<Vec<u8>>)
    ensures
        match r {
            Some(out) => (exists|i: int| 0 <= i < lines@.len() && lines@[i] is Some) && out@
                == pasted_from(line_views(lines@), separator, 0),
            None => forall|i: int| 0 <= i < lines@.len() ==> lines@[i] is None,
        },
{
    let ghost views = line_views(lines@);
    let n = lines.len();
    let mut out: Vec<u8> = Vec::new();
    let mut any = false;
    let mut i: usize = 0;
    while i < n
        invariant
            0 <= i <= n,
            n == lines@.len(),
            n == views.len(),
            views == line_views(lines@),
            any <==> exists|k: int| 0 <= k < i && lines@[k] is Some,
            pasted_from(views, separator, 0) == out@ + pasted_from(views, separator, i as int),
        decreases n - i,
    {
        proof {
            assert(views[i as int] == (match lines@[i as int] {
                Some(v) => Some(v@),
                None => None::<Seq<u8>>,
            }));
        }
        match &lines[i] {
            Some(line) => {
                let ghost out0 = out@;
                let mut j: usize = 0;
                let m = line.len();
                while j < m
                    invariant
                        0 <= j <= m,
                        m == line@.len(),
                        out@ == out0 + line@.take(j as int),
                    decreases m - j,
                {
                    out.push(line[j]);
                    proof {
                        assert(line@.take(j + 1) =~= line@.take(j as int) + seq![line@[j as int]]);
                    }
                    j = j + 1;
                }
                proof {
                    assert(line@.take(m as int) =~= line@);
                    assert(line@.take(0) =~= Seq::<u8>::empty());
                    assert(out0 + line@.take(0) =~= out0);
                }
                any = true;
            },
            None => {},
        }
        if i + 1 != n {
            out.push(separator);
        }
        proof {
            assert(pasted_from(views, separator, 0) =~= out@ + pasted_from(
                views,
                separator,
                i + 1,
            ));
        }
        i = i + 1;
    }
    if any {
        proof {
            assert(pasted_from(views, separator, n as int) =~= Seq::<u8>::empty());
            assert(out@ =~= pasted_from(views, separator, 0));
        }
        Some(out)
    } else {
        None
    }
}

} // verus!
