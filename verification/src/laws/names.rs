//! Laws on the name of the temporary directory.
use vstd::prelude::*;
use vstd::string::*;

use crate::tempdir;

verus! {

/// `c` is the hexadecimal digit of value `d`, in lower case.
pub open spec fn is_hex_of(c: char, d: u8) -> bool {
    c as int == if d < 10 {
        '0' as int + d
    } else {
        'a' as int + d - 10
    }
}

/// A comma and a space stand behind the entry of index `i` of a list that starts at `start` of `t`.
pub open spec fn has_gap(t: Seq<char>, start: int, i: int) -> bool {
    t[start + 4 * i + 2] == ',' && t[start + 4 * i + 3] == ' '
}

/// Bytes stand in a list by their two hexadecimal digits each, four characters apart.
proof fn lemma_list(bytes: Seq<u8>)
    requires
        bytes.len() > 0,
    ensures
        tempdir::hex_list(bytes).len() == 4 * bytes.len() - 2,
        forall|i: int|
            0 <= i < bytes.len() ==> is_hex_of(
                tempdir::hex_list(bytes)[4 * i],
                #[trigger] bytes[i] / 16,
            ) && is_hex_of(tempdir::hex_list(bytes)[4 * i + 1], bytes[i] % 16),
        forall|i: int|
            0 <= i < bytes.len() - 1 ==> #[trigger] has_gap(tempdir::hex_list(bytes), 0, i),
    decreases bytes.len(),
{
    reveal_strlit(", ");
    let t = tempdir::hex_list(bytes);
    let n = bytes.len() - 1;
    if n == 0 {
        assert(t == tempdir::hex_byte(bytes[0]));
    } else {
        let front = bytes.drop_last();
        lemma_list(front);
        let u = tempdir::hex_list(front);
        assert(t == u + ", "@ + tempdir::hex_byte(bytes.last()));
        assert forall|i: int| 0 <= i < bytes.len() implies is_hex_of(
            t[4 * i],
            #[trigger] bytes[i] / 16,
        ) && is_hex_of(t[4 * i + 1], bytes[i] % 16) by {
            if i < n {
                assert(front[i] == bytes[i]);
                assert(t[4 * i] == u[4 * i] && t[4 * i + 1] == u[4 * i + 1]);
            } else {
                assert(t[4 * i] == tempdir::hex_byte(bytes[i])[0]);
                assert(t[4 * i + 1] == tempdir::hex_byte(bytes[i])[1]);
            }
        }
        assert forall|i: int| 0 <= i < n implies #[trigger] has_gap(t, 0, i) by {
            if i < n - 1 {
                assert(has_gap(u, 0, i));
                assert(t[4 * i + 2] == u[4 * i + 2] && t[4 * i + 3] == u[4 * i + 3]);
            }
        }
    }
}

/// The directory is named `flip-link-` and, in brackets, its random bytes: each by two lower case
/// hexadecimal digits, with a comma and a space between two of them. So different bytes give
/// different names.
pub proof fn law_directory_name(random: Seq<u8>)
    requires
        random.len() > 0,
    ensures
        ({
            let name = tempdir::dir_name(random);
            &&& name.len() == 4 * random.len() + 10
            &&& name.take(11) == "flip-link-["@
            &&& name[name.len() - 1] == ']'
            &&& forall|i: int|
                0 <= i < random.len() ==> is_hex_of(name[4 * i + 11], #[trigger] random[i] / 16)
                    && is_hex_of(name[4 * i + 12], random[i] % 16)
            &&& forall|i: int|
                0 <= i < random.len() - 1 ==> #[trigger] has_gap(name, 11, i)
        }),
{
    reveal_strlit("flip-link-[");
    reveal_strlit("]");
    lemma_list(random);
    let list = tempdir::hex_list(random);
    let name = tempdir::dir_name(random);
    assert(name == "flip-link-["@ + list + "]"@);
    assert(name.take(11) =~= "flip-link-["@);
    assert forall|i: int| 0 <= i < random.len() implies is_hex_of(
        name[4 * i + 11],
        #[trigger] random[i] / 16,
    ) && is_hex_of(name[4 * i + 12], random[i] % 16) by {
        assert(name[4 * i + 11] == list[4 * i] && name[4 * i + 12] == list[4 * i + 1]);
    }
    assert forall|i: int| 0 <= i < random.len() - 1 implies #[trigger] has_gap(name, 11, i) by {
        assert(has_gap(list, 0, i));
        assert(name[4 * i + 13] == list[4 * i + 2] && name[4 * i + 14] == list[4 * i + 3]);
    }
}

/// Directories of different random bytes have different names.
pub proof fn law_directory_names_differ(a: Seq<u8>, b: Seq<u8>)
    requires
        a.len() > 0,
        b.len() > 0,
        tempdir::dir_name(a) == tempdir::dir_name(b),
    ensures
        a == b,
{
    law_directory_name(a);
    law_directory_name(b);
    assert(a.len() == b.len());
    let name = tempdir::dir_name(a);
    assert forall|i: int| 0 <= i < a.len() implies a[i] == b[i] by {
        assert(is_hex_of(name[4 * i + 11], a[i] / 16) && is_hex_of(name[4 * i + 12], a[i] % 16));
        assert(is_hex_of(name[4 * i + 11], b[i] / 16) && is_hex_of(name[4 * i + 12], b[i] % 16));
    }
    assert(a =~= b);
}

} // verus!
