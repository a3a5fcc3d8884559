use wordguess::fat::{
    baz, say_hei, say_hei_static, strlen, strlen2, strlen3, strlen_dyn, strlen_dyn2, Hei,
};
use wordguess::link_list::LinkedList;
use wordguess::myvec::MyVec;
use wordguess::pool::{Pool, PoolItem};
use wordguess::strsplit::{until_char, Delimiter, StrSplit};

#[test]
fn pool_it_works() {
    struct Awesome(usize);
    impl Awesome {
        fn get(&self) -> usize {
            self.0
        }

        fn inc(&mut self) {
            self.0 += 1;
        }
    }

    impl PoolItem for Awesome {
        fn is_fresh(&self) -> bool {
            self.0 == 0
        }

        fn resets_to(&self, after: &Self) -> bool {
            after.0 == 0
        }

        fn new() -> Self {
            Awesome(0)
        }

        fn reset(&mut self) {
            self.0 = 0;
        }
    }

    let mut pool: Pool<Awesome> = Pool::new();
    let mut item1 = pool.get();

    assert_eq!(item1.get(), 0);
    item1.inc();
    assert_eq!(item1.get(), 1);
    pool.put(item1);

    let item2 = pool.get();
    assert_eq!(item2.get(), 0);
}

#[test]
fn pool_hands_out_the_item_returned_last() {
    struct Numbered(u32, bool);
    impl PoolItem for Numbered {
        fn is_fresh(&self) -> bool {
            self.1
        }

        fn resets_to(&self, after: &Self) -> bool {
            after.0 == self.0 && after.1
        }

        fn new() -> Self {
            Numbered(0, true)
        }

        fn reset(&mut self) {
            self.1 = true;
        }
    }
    let mut pool: Pool<Numbered> = Pool::new();
    let mut a = pool.get();
    let mut b = pool.get();
    a.0 = 1;
    a.1 = false;
    b.0 = 2;
    b.1 = false;
    pool.put(a);
    pool.put(b);
    let first = pool.get();
    assert_eq!((first.0, first.1), (2, true));
    let second = pool.get();
    assert_eq!((second.0, second.1), (1, true));
    let third = pool.get();
    assert_eq!((third.0, third.1), (0, true));
}

#[test]
fn test() {
    let haystack = "a b c d e";
    let letters: Vec<_> = StrSplit::new(haystack, " ").collect();
    assert_eq!(letters, vec!["a", "b", "c", "d", "e"]);

    let haystack = "a b c d ";
    let letters: Vec<_> = StrSplit::new(haystack, " ").collect();
    assert_eq!(letters, vec!["a", "b", "c", "d", ""]);

    assert_eq!(until_char("hello world", 'o'), "hell");
}

#[test]
fn split_handles_long_delimiters_and_missing_ones() {
    let pieces: Vec<_> = StrSplit::new("one, two,three, ", ", ").collect();
    assert_eq!(pieces, vec!["one", "two,three", ""]);
    let pieces: Vec<_> = StrSplit::new("nothing here", "xyz").collect();
    assert_eq!(pieces, vec!["nothing here"]);
    let pieces: Vec<_> = StrSplit::new("", ",").collect();
    assert_eq!(pieces, vec![""]);
    let pieces: Vec<_> = StrSplit::new("aaa", "aa").collect();
    assert_eq!(pieces, vec!["", "a"]);
    let pieces: Vec<_> = StrSplit::new("x-y-z", '-').collect();
    assert_eq!(pieces, vec!["x", "y", "z"]);
}

#[test]
fn split_reports_byte_offsets() {
    let pieces: Vec<_> = StrSplit::new("blåbær→syltetøy→is", "→").collect();
    assert_eq!(pieces, vec!["blåbær", "syltetøy", "is"]);
    let pieces: Vec<_> = StrSplit::new("blåbær→syltetøy→is", '→').collect();
    assert_eq!(pieces, vec!["blåbær", "syltetøy", "is"]);
    let pieces: Vec<_> = StrSplit::new("åøå", 'ø').collect();
    assert_eq!(pieces, vec!["å", "å"]);
    assert_eq!(until_char("smørbrød", 'b'), "smør");
    assert_eq!(until_char("smørbrød", 'ø'), "sm");
    assert_eq!("a".find_next("éa"), Some((2, 3)));
    assert_eq!("→".find_next("å→b"), Some((2, 5)));
    assert_eq!('b'.find_next("å→b"), Some((5, 6)));
    assert_eq!('é'.find_next("aé"), Some((1, 3)));
    assert_eq!('𝄞'.find_next("é𝄞"), Some((2, 6)));
    assert_eq!('q'.find_next("å→b"), None);
    assert_eq!("".find_next("abc"), Some((0, 0)));
    assert_eq!("".find_next(""), Some((0, 0)));
    assert_eq!("abc".find_next("ab"), None);
    assert_eq!("b c".find_next("a b c"), Some((2, 5)));
    // Every offset agrees with the standard library's search.
    for text in ["", "a", "éa", "å→b→", "aaa", "→→→", "a b c d "] {
        for delimiter in ["", "a", "→", "b→", "aa", " ", "é"] {
            let expected = text.find(delimiter).map(|start| (start, start + delimiter.len()));
            assert_eq!(delimiter.find_next(text), expected);
        }
        for delimiter in ['a', 'é', '→', ' ', '𝄞'] {
            let expected = text.find(delimiter).map(|start| (start, start + delimiter.len_utf8()));
            assert_eq!(delimiter.find_next(text), expected);
        }
    }
}

#[test]
fn split_hands_out_pieces_one_by_one() {
    let mut split = StrSplit::new("a,b", ',');
    assert_eq!(split.next(), Some("a"));
    assert_eq!(split.next(), Some("b"));
    assert_eq!(split.next(), None);
    assert_eq!(split.next(), None);
    assert_eq!(until_char("no such letter", 'z'), "no such letter");
    assert_eq!(until_char("", 'z'), "");
}

#[test]
fn lib_it_works() {
    #[derive(PartialEq, Debug)]
    struct Dropped(usize);

    impl Drop for Dropped {
        fn drop(&mut self) {
            println!("Dropping");
        }
    }

    let mut vec = MyVec::<Dropped>::new();
    vec.push(Dropped(1));
    vec.push(Dropped(2));

    assert_eq!(vec.get(1), Some(&Dropped(2)));
}

#[test]
fn my_vec_doubles_its_room() {
    let mut v = MyVec::<u16>::new();
    assert_eq!((v.len(), v.capacity()), (0, 0));
    assert_eq!(v.get(0), None);
    let mut rooms = Vec::new();
    for i in 0..9u16 {
        v.push(i * 10);
        rooms.push(v.capacity());
        assert!(v.len() <= v.capacity());
        assert_eq!(v.get(0), Some(&0));
        assert_eq!(v.get(i as usize), Some(&(i * 10)));
        assert_eq!(v.get(i as usize + 1), None);
    }
    assert_eq!(rooms, vec![4, 4, 4, 4, 8, 8, 8, 8, 16]);
    assert_eq!(v.len(), 9);
    assert_eq!(v.get(0), Some(&0));
    assert_eq!(v.get(8), Some(&80));
    assert_eq!(v.get(9), None);
}

#[test]
fn link_list_it_works() {
    let mut list = LinkedList::empty();
    list.push(1023);
    assert_eq!(list.peek(), Some(&1023));
    assert_eq!(list.pop(), Some(1023));
}

#[test]
fn linked_list_is_a_stack() {
    let mut list = LinkedList::empty();
    assert_eq!(list.peek(), None);
    assert_eq!(list.pop(), None::<u8>);
    list.push(1);
    list.push(2);
    list.push(3);
    assert_eq!(list.peek(), Some(&3));
    assert_eq!(list.pop(), Some(3));
    assert_eq!(list.pop(), Some(2));
    list.push(4);
    assert_eq!(list.pop(), Some(4));
    assert_eq!(list.pop(), Some(1));
    assert_eq!(list.pop(), None);
}

#[test]
fn text_lengths_count_bytes() {
    assert_eq!(strlen("hello"), 5);
    assert_eq!(strlen(""), 0);
    assert_eq!(strlen("\u{e9}"), 2);
    assert_eq!(strlen(String::from("hello")), 5);
    assert_eq!(strlen2("smørbrød"), 10);
    assert_eq!(strlen2("\u{e9}"), 2);
    assert_eq!(strlen3("\u{e9}"), 2);
    assert_eq!(strlen3(String::new()), 0);
    assert_eq!(strlen3("𝄞→é"), 9);
    let boxed: Box<dyn wordguess::fat::Text> = Box::new(String::from("hello"));
    assert_eq!(strlen_dyn(boxed), 5);
    let boxed: Box<dyn wordguess::fat::Text> = Box::new("\u{e9}");
    assert_eq!(strlen_dyn(boxed), 2);
    let borrowed: &dyn wordguess::fat::Text = &"world!";
    assert_eq!(strlen_dyn2(borrowed), 6);
}

#[test]
fn greetings() {
    assert_eq!(say_hei_static("Jon"), "Hei Jon");
    assert_eq!(say_hei_static(String::from("")), "Hei ");
    let name = String::from("Verden");
    let greeter: &dyn Hei = &name;
    assert_eq!(say_hei(greeter), "Hei Verden");
    assert_eq!("du".hei(), "Hei du");
    "du".weird();
    assert_eq!(baz(&"på"), (String::from("Hei på"), 3));
    assert_eq!(baz(&String::from("Jon")), (String::from("Hei Jon"), 3));
}
