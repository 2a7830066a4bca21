use vstd::prelude::*;
use vstd::string::StringExecFns;

verus! {

/// Where the files of a store lie and how the store is tuned.
pub struct Config {
    leaf_dir: String,
    table_dir: String,
    root_split_threshold: usize,
    filter_items_count: usize,
    filter_bitmap_size: usize,
}

/// The character of a digit.
pub open spec fn digit_char(d: nat) -> char {
    if d == 0 {
        '0'
    } else if d == 1 {
        '1'
    } else if d == 2 {
        '2'
    } else if d == 3 {
        '3'
    } else if d == 4 {
        '4'
    } else if d == 5 {
        '5'
    } else if d == 6 {
        '6'
    } else if d == 7 {
        '7'
    } else if d == 8 {
        '8'
    } else {
        '9'
    }
}

/// A number in decimal digits, without leading zeros.
pub open spec fn decimal_text(n: nat) -> Seq<char>
    decreases n,
{
    if n < 10 {
        seq![digit_char(n)]
    } else {
        decimal_text(n / 10) + seq![digit_char(n % 10)]
    }
}

/// The text of one digit.
fn digit_text(d: usize) -> (text: &'static str)
    requires
        d < 10,
    ensures
        text@ == seq![digit_char(d as nat)],
{
    proof {
        reveal_strlit("0");
        reveal_strlit("1");
        reveal_strlit("2");
        reveal_strlit("3");
        reveal_strlit("4");
        reveal_strlit("5");
        reveal_strlit("6");
        reveal_strlit("7");
        reveal_strlit("8");
        reveal_strlit("9");
    }
    let text: &'static str = if d == 0 {
        "0"
    } else if d == 1 {
        "1"
    } else if d == 2 {
        "2"
    } else if d == 3 {
        "3"
    } else if d == 4 {
        "4"
    } else if d == 5 {
        "5"
    } else if d == 6 {
        "6"
    } else if d == 7 {
        "7"
    } else if d == 8 {
        "8"
    } else {
        "9"
    };
    assert(text@ =~= seq![digit_char(d as nat)]);
    text
}

/// Appends a number in decimal digits.
pub fn append_decimal(text: &mut String, n: usize)
    ensures
        final(text)@ == old(text)@ + decimal_text(n as nat),
    decreases n,
{
    if n >= 10 {
        append_decimal(text, n / 10);
    }
    text.append(digit_text(n % 10));
    assert(text@ =~= old(text)@ + decimal_text(n as nat));
}

impl Config {
    pub closed spec fn leaf_dir(&self) -> Seq<char> {
        self.leaf_dir@
    }

    pub closed spec fn table_dir(&self) -> Seq<char> {
        self.table_dir@
    }

    pub closed spec fn root_split_threshold(&self) -> usize {
        self.root_split_threshold
    }

    pub closed spec fn filter_items_count(&self) -> usize {
        self.filter_items_count
    }

    pub closed spec fn filter_bitmap_size(&self) -> usize {
        self.filter_bitmap_size
    }

    /// A configuration of these settings.
    pub fn new(
        leaf_dir: String,
        table_dir: String,
        root_split_threshold: usize,
        filter_items_count: usize,
        filter_bitmap_size: usize,
    ) -> (config: Config)
        ensures
            config.leaf_dir() == leaf_dir@,
            config.table_dir() == table_dir@,
            config.root_split_threshold() == root_split_threshold,
            config.filter_items_count() == filter_items_count,
            config.filter_bitmap_size() == filter_bitmap_size,
    {
        Config {
            leaf_dir,
            table_dir,
            root_split_threshold,
            filter_items_count,
            filter_bitmap_size,
        }
    }

    /// Where the leaf files of the table `name` lie.
    pub fn get_leaf_dir_path(&self, name: &str) -> (path: String)
        ensures
            path@ == self.leaf_dir() + "/"@ + name@,
    {
        let mut path: String = self.leaf_dir.clone();
        path.append("/");
        path.append(name);
        path
    }

    /// Where the table files of the table `name` lie.
    pub fn get_table_dir_path(&self, name: &str) -> (path: String)
        ensures
            path@ == self.table_dir() + "/"@ + name@,
    {
        let mut path: String = self.table_dir.clone();
        path.append("/");
        path.append(name);
        path
    }

    /// The leaf file of generation `id` of the table `name`.
    pub fn get_leaf_file_path(&self, name: &str, id: usize) -> (path: String)
        ensures
            path@ == self.leaf_dir() + "/"@ + name@ + "/leaves-"@ + decimal_text(id as nat)
                + ".amph"@,
    {
        let mut path: String = self.get_leaf_dir_path(name);
        path.append("/leaves-");
        append_decimal(&mut path, id);
        path.append(".amph");
        path
    }

    /// The file of the table `id` of the table `name`.
    pub fn get_table_file_path(&self, name: &str, id: usize) -> (path: String)
        ensures
            path@ == self.table_dir() + "/"@ + name@ + "/sstable-"@ + decimal_text(id as nat)
                + ".amph"@,
    {
        let mut path: String = self.get_table_dir_path(name);
        path.append("/sstable-");
        append_decimal(&mut path, id);
        path.append(".amph");
        path
    }

    /// The log of table infos of the table `name`.
    pub fn get_metadata_path(&self, name: &str) -> (path: String)
        ensures
            path@ == self.table_dir() + "/"@ + name@ + "/metadata.amph"@,
    {
        let mut path: String = self.get_table_dir_path(name);
        path.append("/metadata.amph");
        path
    }

    pub fn get_root_split_threshold(&self) -> (threshold: usize)
        ensures
            threshold == self.root_split_threshold(),
    {
        self.root_split_threshold
    }

    pub fn get_filter_items_count(&self) -> (count: usize)
        ensures
            count == self.filter_items_count(),
    {
        self.filter_items_count
    }

    /// The bytes that the bitmap of a filter takes.
    pub fn get_filter_bitmap_size(&self) -> (size: usize)
        ensures
            size == self.filter_bitmap_size(),
    {
        self.filter_bitmap_size
    }
}

impl Default for Config {
    /// Both directories are `data`; a tree is flushed when its root has
    /// split six times; a filter expects 8192 keys and takes 9816 bytes,
    /// which lets one key in a hundred pass by mistake.
    fn default() -> (config: Config)
        ensures
            config.leaf_dir() == "data"@,
            config.table_dir() == "data"@,
            config.root_split_threshold() == 6,
            config.filter_items_count() == 8192,
            config.filter_bitmap_size() == 9816,
    {
        Config {
            leaf_dir: String::from_str("data"),
            table_dir: String::from_str("data"),
            root_split_threshold: 6,
            filter_items_count: 8192,
            filter_bitmap_size: 9816,
        }
    }
}

} // verus!
