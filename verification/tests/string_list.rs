use grit::order::ReverseLexicographic;
use grit::string_list::{StringListBase, StringListDupe, StringListRef};

#[test]
fn test_ref() {
    let longer = "test0";
    let mut list_ref = StringListRef::new();
    list_ref.append(&longer);
    list_ref.append("test1");
    list_ref.append("test2");
    let other = "test3";
    list_ref.append(&other);

    let items = list_ref.iter();
    let mut iter = items.iter();
    assert_eq!(&longer, iter.next().unwrap());
    assert_eq!(&"test1", iter.next().unwrap());
    assert_eq!(&"test2", iter.next().unwrap());
    assert_eq!(&other, iter.next().unwrap());
}

#[test]
fn test_dupe() {
    let longer = "test0";
    let mut list_dupe = StringListDupe::new();
    list_dupe.append(&longer);
    list_dupe.append("test1");
    list_dupe.append("test2");
    let other = "test3";
    list_dupe.append(&other);

    {
        // the copy outlives the source
        let will_drop = String::from("test4");
        list_dupe.append(&will_drop);
    }

    let items = list_dupe.iter();
    let mut iter = items.iter();
    assert_eq!(&longer, iter.next().unwrap());
    assert_eq!(&"test1", iter.next().unwrap());
    assert_eq!(&"test2", iter.next().unwrap());
    assert_eq!(&other, iter.next().unwrap());
    assert_eq!(&"test4", iter.next().unwrap());
}

#[test]
fn sort() {
    let first = "item1";
    let second = "item1";
    let third = "item1";

    let mut list_ref = StringListRef::new();
    let mut list_dupe = StringListDupe::new();

    list_ref.append(&third);
    list_ref.append(&first);
    list_ref.append(&second);

    let ref_unsorted = list_ref.iter();
    let mut ref_unsorted_iter = ref_unsorted.iter();
    assert_eq!(&third, ref_unsorted_iter.next().unwrap());
    assert_eq!(&first, ref_unsorted_iter.next().unwrap());
    assert_eq!(&second, ref_unsorted_iter.next().unwrap());

    list_dupe.append(&third);
    list_dupe.append(&first);
    list_dupe.append(&second);
    let dupe_unsorted = list_dupe.iter();
    let mut dupe_unsorted_iter = dupe_unsorted.iter();
    assert_eq!(&third, dupe_unsorted_iter.next().unwrap());
    assert_eq!(&first, dupe_unsorted_iter.next().unwrap());
    assert_eq!(&second, dupe_unsorted_iter.next().unwrap());

    list_ref.sort();
    let ref_sorted = list_ref.iter();
    let mut ref_sorted_iter = ref_sorted.iter();
    assert_eq!(&first, ref_sorted_iter.next().unwrap());
    assert_eq!(&second, ref_sorted_iter.next().unwrap());
    assert_eq!(&third, ref_sorted_iter.next().unwrap());

    list_dupe.sort();
    let dupe_sorted = list_dupe.iter();
    let mut dupe_sorted_iter = dupe_sorted.iter();
    assert_eq!(&first, dupe_sorted_iter.next().unwrap());
    assert_eq!(&second, dupe_sorted_iter.next().unwrap());
    assert_eq!(&third, dupe_sorted_iter.next().unwrap());
}

#[test]
fn sort_user_compare() {
    let first = "item1";
    let second = "item2";
    let third = "item3";

    let mut list_ref: StringListBase<&str, ReverseLexicographic> = StringListBase::new();
    list_ref.compare = Some(ReverseLexicographic);
    let mut list_dupe: StringListBase<String, ReverseLexicographic> = StringListBase::new();
    list_dupe.compare = Some(ReverseLexicographic);

    list_ref.append(&third);
    list_ref.append(&first);
    list_ref.append(&second);

    let ref_unsorted = list_ref.iter();
    let mut ref_unsorted_iter = ref_unsorted.iter();
    assert_eq!(&third, ref_unsorted_iter.next().unwrap());
    assert_eq!(&first, ref_unsorted_iter.next().unwrap());
    assert_eq!(&second, ref_unsorted_iter.next().unwrap());

    list_dupe.append(&third);
    list_dupe.append(&first);
    list_dupe.append(&second);
    let dupe_unsorted = list_dupe.iter();
    let mut dupe_unsorted_iter = dupe_unsorted.iter();
    assert_eq!(&third, dupe_unsorted_iter.next().unwrap());
    assert_eq!(&first, dupe_unsorted_iter.next().unwrap());
    assert_eq!(&second, dupe_unsorted_iter.next().unwrap());

    list_ref.sort();
    let ref_sorted = list_ref.iter();
    let mut ref_sorted_iter = ref_sorted.iter();
    assert_eq!(&third, ref_sorted_iter.next().unwrap());
    assert_eq!(&second, ref_sorted_iter.next().unwrap());
    assert_eq!(&first, ref_sorted_iter.next().unwrap());

    list_dupe.sort();
    let dupe_sorted = list_dupe.iter();
    let mut dupe_sorted_iter = dupe_sorted.iter();
    assert_eq!(&third, dupe_sorted_iter.next().unwrap());
    assert_eq!(&second, dupe_sorted_iter.next().unwrap());
    assert_eq!(&first, dupe_sorted_iter.next().unwrap());
}

#[test]
fn keep_filtered_ref() {
    let keep1 = "keep1";
    let keep2 = "keep_number_2_1";
    let filter = "dropme";

    let mut list_ref = StringListRef::new();
    list_ref.append(&keep1);
    list_ref.append(&filter);
    list_ref.append(&keep2);

    let prefilter = list_ref.iter();
    let mut ref_prefilter_iter = prefilter.iter();
    assert_eq!(&keep1, ref_prefilter_iter.next().unwrap());
    assert_eq!(&filter, ref_prefilter_iter.next().unwrap());
    assert_eq!(&keep2, ref_prefilter_iter.next().unwrap());

    list_ref.keep_filtered(|s: &str| s.ends_with("1"));

    let postfilter = list_ref.iter();
    let mut ref_postfilter_iter = postfilter.iter();
    assert_eq!(2, list_ref.list.len());
    assert_eq!(&keep1, ref_postfilter_iter.next().unwrap());
    assert_eq!(&keep2, ref_postfilter_iter.next().unwrap());
}

#[test]
fn keep_filtered_dupe() {
    let keep1 = "keep1";
    let keep2 = "keep_number_2_1";
    let filter = "dropme";

    let mut list_dupe = StringListDupe::new();
    list_dupe.append(&keep1);
    list_dupe.append(&filter);
    list_dupe.append(&keep2);

    let prefilter = list_dupe.iter();
    let mut ref_prefilter_iter = prefilter.iter();
    assert_eq!(&keep1, ref_prefilter_iter.next().unwrap());
    assert_eq!(&filter, ref_prefilter_iter.next().unwrap());
    assert_eq!(&keep2, ref_prefilter_iter.next().unwrap());

    list_dupe.keep_filtered(|s: &str| s.ends_with("1"));

    let postfilter = list_dupe.iter();
    let mut ref_postfilter_iter = postfilter.iter();
    assert_eq!(2, list_dupe.list.len());
    assert_eq!(&keep1, ref_postfilter_iter.next().unwrap());
    assert_eq!(&keep2, ref_postfilter_iter.next().unwrap());
}

#[test]
fn delete_ref() {
    let keep1 = "keep1";
    let keep2 = "keep_number_2_1";
    let delete = "dropme";

    let mut list_ref = StringListRef::new();
    list_ref.append(&keep1);
    list_ref.append(&delete);
    list_ref.append(&keep2);

    let predelete = list_ref.iter();
    let mut ref_predelete_iter = predelete.iter();
    assert_eq!(&keep1, ref_predelete_iter.next().unwrap());
    assert_eq!(&delete, ref_predelete_iter.next().unwrap());
    assert_eq!(&keep2, ref_predelete_iter.next().unwrap());

    list_ref.unsorted_delete(1);

    let postdelete = list_ref.iter();
    let mut ref_postdelete_iter = postdelete.iter();
    assert_eq!(2, list_ref.list.len());
    assert_eq!(&keep1, ref_postdelete_iter.next().unwrap());
    assert_eq!(&keep2, ref_postdelete_iter.next().unwrap());
}

#[test]
fn delete_dupe() {
    let keep1 = "keep1";
    let keep2 = "keep_number_2_1";
    let delete = "dropme";

    let mut list_dupe = StringListDupe::new();
    list_dupe.append(&keep1);
    list_dupe.append(&delete);
    list_dupe.append(&keep2);

    let predelete = list_dupe.iter();
    let mut ref_predelete_iter = predelete.iter();
    assert_eq!(&keep1, ref_predelete_iter.next().unwrap());
    assert_eq!(&delete, ref_predelete_iter.next().unwrap());
    assert_eq!(&keep2, ref_predelete_iter.next().unwrap());

    list_dupe.unsorted_delete(1);

    let postdelete = list_dupe.iter();
    let mut ref_postdelete_iter = postdelete.iter();
    assert_eq!(2, list_dupe.list.len());
    assert_eq!(&keep1, ref_postdelete_iter.next().unwrap());
    assert_eq!(&keep2, ref_postdelete_iter.next().unwrap());
}

#[test]
fn unsorted_lookup_ref() {
    let keep1 = "keep1";
    let keep2 = "keep_number_2_1";
    let filter = "dropme";

    let mut list_ref = StringListRef::new();
    list_ref.append(&keep1);
    list_ref.append(&filter);
    list_ref.append(&keep2);

    let prelookup = list_ref.iter();
    let mut ref_prelookup_iter = prelookup.iter();
    assert_eq!(&keep1, ref_prelookup_iter.next().unwrap());
    assert_eq!(&filter, ref_prelookup_iter.next().unwrap());
    assert_eq!(&keep2, ref_prelookup_iter.next().unwrap());

    let find = list_ref.unsorted_lookup("dropme");
    assert_eq!(&filter, find.unwrap());
}

#[test]
fn unsorted_lookup_dupe() {
    let keep1 = "keep1";
    let keep2 = "keep_number_2_1";
    let filter = "dropme";

    let mut list_dupe = StringListDupe::new();
    list_dupe.append(&keep1);
    list_dupe.append(&filter);
    list_dupe.append(&keep2);

    let prelookup = list_dupe.iter();
    let mut ref_prelookup_iter = prelookup.iter();
    assert_eq!(&keep1, ref_prelookup_iter.next().unwrap());
    assert_eq!(&filter, ref_prelookup_iter.next().unwrap());
    assert_eq!(&keep2, ref_prelookup_iter.next().unwrap());

    let find = list_dupe.unsorted_lookup("dropme");
    assert_eq!(&filter, find.unwrap());
}

#[test]
fn split_in_place_ref() {
    let split_me_base = "I should be split on spaces";
    let split_me = String::from(split_me_base);
    let split_1 = "I";
    let split_2 = "should";
    let split_3 = "be";
    let split_4 = "split";
    let split_5 = "on";
    let split_6 = "spaces";

    let mut list_ref = StringListRef::new();
    list_ref.split_in_place(split_me.as_str(), ' ', i32::MAX);

    assert_eq!(list_ref.list.len(), 6);

    let items = list_ref.iter();
    let mut iter = items.iter();
    assert_eq!(&split_1, iter.next().unwrap());
    assert_eq!(&split_2, iter.next().unwrap());
    assert_eq!(&split_3, iter.next().unwrap());
    assert_eq!(&split_4, iter.next().unwrap());
    assert_eq!(&split_5, iter.next().unwrap());
    assert_eq!(&split_6, iter.next().unwrap());
}

#[test]
fn split_dupe() {
    let split_me = "I should be split on spaces";
    let split_1 = "I";
    let split_2 = "should";
    let split_3 = "be";
    let split_4 = "split";
    let split_5 = "on";
    let split_6 = "spaces";

    let mut list_dupe = StringListDupe::new();
    list_dupe.split(&split_me, ' ', i32::MAX);

    assert_eq!(list_dupe.list.len(), 6);

    let items = list_dupe.iter();
    let mut iter = items.iter();
    assert_eq!(&split_1, iter.next().unwrap());
    assert_eq!(&split_2, iter.next().unwrap());
    assert_eq!(&split_3, iter.next().unwrap());
    assert_eq!(&split_4, iter.next().unwrap());
    assert_eq!(&split_5, iter.next().unwrap());
    assert_eq!(&split_6, iter.next().unwrap());
}
