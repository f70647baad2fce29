use orlando_transducers::optics::{
    FoldLike, IsoLike, LensLike, PrismLike, TraversalLike, Fold, Iso, Lens, Optional, Prism,
    Traversal,
};

#[derive(Clone, Debug, PartialEq)]
struct User {
    name: String,
    age: u32,
    address: Option<Address>,
}

#[derive(Clone, Debug, PartialEq)]
struct Address {
    city: String,
    zip: String,
}

#[derive(Clone, Debug, PartialEq)]
enum Shape {
    Circle(f64),
    Rectangle(f64, f64),
    #[allow(dead_code)]
    Triangle(f64, f64, f64),
}

fn circle_prism() -> impl PrismLike<Shape, f64> {
    Prism::new(
        |s: &Shape| match s {
            Shape::Circle(r) => Some(*r),
            _ => None,
        },
        |r: f64| Shape::Circle(r),
    )
}

fn rectangle_prism() -> impl PrismLike<Shape, (f64, f64)> {
    Prism::new(
        |s: &Shape| match s {
            Shape::Rectangle(w, h) => Some((*w, *h)),
            _ => None,
        },
        |(w, h): (f64, f64)| Shape::Rectangle(w, h),
    )
}

fn celsius_fahrenheit_iso() -> impl IsoLike<f64, f64> {
    Iso::new(|c: &f64| *c * 9.0 / 5.0 + 32.0, |f: f64| (f - 32.0) * 5.0 / 9.0)
}

fn string_len_iso() -> impl IsoLike<String, usize> {
    Iso::new(|s: &String| s.len(), |n: usize| "x".repeat(n))
}

fn vec_traversal() -> impl TraversalLike<Vec<i32>, i32> {
    Traversal::new(|v: &Vec<i32>| v.clone(), |_v: &Vec<i32>, values: Vec<i32>| values)
}

fn name_lens() -> impl LensLike<User, String> {
    Lens::new(
        |user: &User| user.name.clone(),
        |user: &User, name: String| User {
            name,
            age: user.age,
            address: user.address.clone(),
        },
    )
}

fn age_lens() -> impl LensLike<User, u32> {
    Lens::new(
        |user: &User| user.age,
        |user: &User, age: u32| User {
            name: user.name.clone(),
            age,
            address: user.address.clone(),
        },
    )
}

fn test_user() -> User {
    User {
        name: "Alice".to_string(),
        age: 30,
        address: None,
    }
}

#[test]
fn test_lens_get() {
    let name_lens = Lens::new(
        |user: &User| user.name.clone(),
        |user: &User, name: String| User {
            name,
            age: user.age,
            address: user.address.clone(),
        },
    );

    let user = User {
        name: "Alice".to_string(),
        age: 30,
        address: None,
    };

    assert_eq!(name_lens.get(&user), "Alice");
}

#[test]
fn test_lens_set() {
    let name_lens = Lens::new(
        |user: &User| user.name.clone(),
        |user: &User, name: String| User {
            name,
            age: user.age,
            address: user.address.clone(),
        },
    );

    let user = User {
        name: "Alice".to_string(),
        age: 30,
        address: None,
    };

    let updated = name_lens.set(&user, "Bob".to_string());
    assert_eq!(updated.name, "Bob");
    assert_eq!(updated.age, 30);
    assert_eq!(user.name, "Alice"); // Original unchanged
}

#[test]
fn test_lens_over() {
    let name_lens = Lens::new(
        |user: &User| user.name.clone(),
        |user: &User, name: String| User {
            name,
            age: user.age,
            address: user.address.clone(),
        },
    );

    let user = User {
        name: "Alice".to_string(),
        age: 30,
        address: None,
    };

    let updated = name_lens.over(&user, |name| name.to_uppercase());
    assert_eq!(updated.name, "ALICE");
}

#[test]
fn test_lens_law_get_put() {
    // Law 1: set(s, get(s)) = s
    let name_lens = Lens::new(
        |user: &User| user.name.clone(),
        |user: &User, name: String| User {
            name,
            age: user.age,
            address: user.address.clone(),
        },
    );

    let user = User {
        name: "Alice".to_string(),
        age: 30,
        address: None,
    };

    let result = name_lens.set(&user, name_lens.get(&user));
    assert_eq!(result, user);
}

#[test]
fn test_lens_law_put_get() {
    // Law 2: get(set(s, a)) = a
    let name_lens = Lens::new(
        |user: &User| user.name.clone(),
        |user: &User, name: String| User {
            name,
            age: user.age,
            address: user.address.clone(),
        },
    );

    let user = User {
        name: "Alice".to_string(),
        age: 30,
        address: None,
    };

    let new_name = "Bob".to_string();
    let updated = name_lens.set(&user, new_name.clone());
    assert_eq!(name_lens.get(&updated), new_name);
}

#[test]
fn test_lens_law_put_put() {
    // Law 3: set(set(s, a1), a2) = set(s, a2)
    let name_lens = Lens::new(
        |user: &User| user.name.clone(),
        |user: &User, name: String| User {
            name,
            age: user.age,
            address: user.address.clone(),
        },
    );

    let user = User {
        name: "Alice".to_string(),
        age: 30,
        address: None,
    };

    let name1 = "Bob".to_string();
    let name2 = "Charlie".to_string();

    let result1 = name_lens.set(&name_lens.set(&user, name1), name2.clone());
    let result2 = name_lens.set(&user, name2);

    assert_eq!(result1, result2);
}

#[test]
fn test_lens_composition() {
    let address_lens = Lens::new(
        |user: &User| user.address.clone().unwrap(),
        |user: &User, address: Address| User {
            name: user.name.clone(),
            age: user.age,
            address: Some(address),
        },
    );

    let city_lens = Lens::new(
        |addr: &Address| addr.city.clone(),
        |addr: &Address, city: String| Address {
            city,
            zip: addr.zip.clone(),
        },
    );

    let user_city_lens = address_lens.compose(city_lens);

    let user = User {
        name: "Alice".to_string(),
        age: 30,
        address: Some(Address {
            city: "NYC".to_string(),
            zip: "10001".to_string(),
        }),
    };

    let city = user_city_lens.get(&user);
    assert_eq!(city, "NYC");

    let updated = user_city_lens.set(&user, "Boston".to_string());
    assert_eq!(updated.address.unwrap().city, "Boston");
}

#[test]
fn test_optional_get_some() {
    let address_lens = Optional::new(
        |user: &User| user.address.clone(),
        |user: &User, address: Address| User {
            name: user.name.clone(),
            age: user.age,
            address: Some(address),
        },
    );

    let user = User {
        name: "Alice".to_string(),
        age: 30,
        address: Some(Address {
            city: "NYC".to_string(),
            zip: "10001".to_string(),
        }),
    };

    assert_eq!(
        address_lens.get(&user),
        Some(Address {
            city: "NYC".to_string(),
            zip: "10001".to_string()
        })
    );
}

#[test]
fn test_optional_get_none() {
    let address_lens = Optional::new(
        |user: &User| user.address.clone(),
        |user: &User, address: Address| User {
            name: user.name.clone(),
            age: user.age,
            address: Some(address),
        },
    );

    let user = User {
        name: "Alice".to_string(),
        age: 30,
        address: None,
    };

    assert_eq!(address_lens.get(&user), None);
}

#[test]
fn test_optional_get_or() {
    let address_lens = Optional::new(
        |user: &User| user.address.clone(),
        |user: &User, address: Address| User {
            name: user.name.clone(),
            age: user.age,
            address: Some(address),
        },
    );

    let user = User {
        name: "Alice".to_string(),
        age: 30,
        address: None,
    };

    let default = Address {
        city: "Unknown".to_string(),
        zip: "00000".to_string(),
    };

    assert_eq!(address_lens.get_or(&user, default.clone()), default);
}

#[test]
fn test_optional_over_some() {
    let address_lens = Optional::new(
        |user: &User| user.address.clone(),
        |user: &User, address: Address| User {
            name: user.name.clone(),
            age: user.age,
            address: Some(address),
        },
    );

    let user = User {
        name: "Alice".to_string(),
        age: 30,
        address: Some(Address {
            city: "NYC".to_string(),
            zip: "10001".to_string(),
        }),
    };

    let updated = address_lens.over(&user, |addr| Address {
        city: addr.city.to_uppercase(),
        zip: addr.zip,
    });

    assert_eq!(updated.address.unwrap().city, "NYC");
}

#[test]
fn test_optional_over_none() {
    let address_lens = Optional::new(
        |user: &User| user.address.clone(),
        |user: &User, address: Address| User {
            name: user.name.clone(),
            age: user.age,
            address: Some(address),
        },
    );

    let user = User {
        name: "Alice".to_string(),
        age: 30,
        address: None,
    };

    let updated = address_lens.over(&user, |addr| Address {
        city: addr.city.to_uppercase(),
        zip: addr.zip,
    });

    assert_eq!(updated, user); // Unchanged when None
}

#[test]
fn test_prism_preview_match() {
    let prism = circle_prism();
    assert_eq!(prism.preview(&Shape::Circle(5.0)), Some(5.0));
}

#[test]
fn test_prism_preview_no_match() {
    let prism = circle_prism();
    assert_eq!(prism.preview(&Shape::Rectangle(2.0, 3.0)), None);
}

#[test]
fn test_prism_review() {
    let prism = circle_prism();
    assert_eq!(prism.review(5.0), Shape::Circle(5.0));
}

#[test]
fn test_prism_over_match() {
    let prism = circle_prism();
    let shape = Shape::Circle(5.0);
    let updated = prism.over(&shape, |r| r * 2.0);
    assert_eq!(updated, Shape::Circle(10.0));
}

#[test]
fn test_prism_over_no_match() {
    let prism = circle_prism();
    let shape = Shape::Rectangle(2.0, 3.0);
    let updated = prism.over(&shape, |r| r * 2.0);
    assert_eq!(updated, shape); // unchanged
}

#[test]
fn test_prism_law_preview_review() {
    // Law: preview(review(a)) = Some(a)
    let prism = circle_prism();
    let radius = 42.0;
    assert_eq!(prism.preview(&prism.review(radius)), Some(radius));
}

#[test]
fn test_prism_law_review_preview() {
    // Law: if preview(s) = Some(a), then review(a) = s
    let prism = circle_prism();
    let shape = Shape::Circle(7.5);
    if let Some(a) = prism.preview(&shape) {
        assert_eq!(prism.review(a), shape);
    }
}

#[test]
fn test_prism_rectangle_variant() {
    let prism = rectangle_prism();
    assert_eq!(prism.preview(&Shape::Rectangle(2.0, 3.0)), Some((2.0, 3.0)));
    assert_eq!(prism.preview(&Shape::Circle(1.0)), None);
    assert_eq!(prism.review((4.0, 5.0)), Shape::Rectangle(4.0, 5.0));
}

#[test]
fn test_iso_to() {
    let iso = celsius_fahrenheit_iso();
    let f = iso.to(&100.0);
    assert!((f - 212.0).abs() < 1e-10);
}

#[test]
fn test_iso_from() {
    let iso = celsius_fahrenheit_iso();
    let c = iso.from(32.0);
    assert!((c - 0.0).abs() < 1e-10);
}

#[test]
fn test_iso_law_round_trip_forward() {
    // Law: from(to(s)) = s
    let iso = celsius_fahrenheit_iso();
    let c = 37.5;
    let back = iso.from(iso.to(&c));
    assert!((back - c).abs() < 1e-10);
}

#[test]
fn test_iso_law_round_trip_backward() {
    // Law: to(from(a)) = a
    let iso = celsius_fahrenheit_iso();
    let f = 98.6;
    let back = iso.to(&iso.from(f));
    assert!((back - f).abs() < 1e-10);
}

#[test]
fn test_iso_over() {
    let iso = celsius_fahrenheit_iso();
    // Double the Fahrenheit value, then convert back
    let result = iso.over(&100.0, |f| f * 2.0);
    // 100°C = 212°F, doubled = 424°F, back to °C = (424-32)*5/9 ≈ 217.78
    let expected = (424.0 - 32.0) * 5.0 / 9.0;
    assert!((result - expected).abs() < 1e-10);
}

#[test]
fn test_iso_reverse() {
    let iso = celsius_fahrenheit_iso();
    let reversed = iso.reverse();
    // reversed.to should convert F→C
    let c = reversed.to(&212.0);
    assert!((c - 100.0).abs() < 1e-10);
    // reversed.from should convert C→F
    let f = reversed.from(0.0);
    assert!((f - 32.0).abs() < 1e-10);
}

#[test]
fn test_iso_as_lens() {
    let iso = celsius_fahrenheit_iso();
    let lens = iso.as_lens();
    let f = lens.get(&100.0);
    assert!((f - 212.0).abs() < 1e-10);
    let c = lens.set(&100.0, 32.0);
    assert!((c - 0.0).abs() < 1e-10);
}

#[test]
fn test_iso_as_prism() {
    let iso = celsius_fahrenheit_iso();
    let prism = iso.as_prism();
    // Prism preview always succeeds for an Iso
    assert!(prism.preview(&100.0).is_some());
    let f = prism.preview(&100.0).unwrap();
    assert!((f - 212.0).abs() < 1e-10);
}

#[test]
fn test_iso_string_len() {
    let iso = string_len_iso();
    assert_eq!(iso.to(&"hello".to_string()), 5);
    assert_eq!(iso.from(3), "xxx".to_string());
}

#[test]
fn test_fold_basic() {
    let even_fold =
        Fold::new(|v: &Vec<i32>| v.iter().filter(|x| *x % 2 == 0).cloned().collect());
    let data = vec![1, 2, 3, 4, 5, 6];
    assert_eq!(even_fold.fold_of(&data), vec![2, 4, 6]);
}

#[test]
fn test_fold_empty() {
    let even_fold =
        Fold::new(|v: &Vec<i32>| v.iter().filter(|x| *x % 2 == 0).cloned().collect());
    let data = vec![1, 3, 5];
    assert_eq!(even_fold.fold_of(&data), Vec::<i32>::new());
    assert!(even_fold.is_empty(&data));
}

#[test]
fn test_fold_length() {
    let all_fold = Fold::new(|v: &Vec<i32>| v.clone());
    let data = vec![1, 2, 3];
    assert_eq!(all_fold.length(&data), 3);
}

#[test]
fn test_fold_first() {
    let even_fold =
        Fold::new(|v: &Vec<i32>| v.iter().filter(|x| *x % 2 == 0).cloned().collect());
    assert_eq!(even_fold.first(&vec![1, 2, 3, 4]), Some(2));
    assert_eq!(even_fold.first(&vec![1, 3, 5]), None);
}

#[test]
fn test_fold_on_struct() {
    // Fold that extracts all names from a team
    #[derive(Clone, Debug)]
    struct Team {
        members: Vec<String>,
    }

    let names_fold = Fold::new(|team: &Team| team.members.clone());
    let team = Team {
        members: vec!["Alice".to_string(), "Bob".to_string()],
    };
    assert_eq!(
        names_fold.fold_of(&team),
        vec!["Alice".to_string(), "Bob".to_string()]
    );
}

#[test]
fn test_traversal_get_all() {
    let trav = vec_traversal();
    assert_eq!(trav.get_all(&vec![1, 2, 3]), vec![1, 2, 3]);
}

#[test]
fn test_traversal_over_all() {
    let trav = vec_traversal();
    assert_eq!(trav.over_all(&vec![1, 2, 3], |x| x * 2), vec![2, 4, 6]);
}

#[test]
fn test_traversal_set_all() {
    let trav = vec_traversal();
    assert_eq!(trav.set_all(&vec![1, 2, 3], 0), vec![0, 0, 0]);
}

#[test]
fn test_traversal_law_identity() {
    // Law: over_all(s, id) = s
    let trav = vec_traversal();
    let data = vec![1, 2, 3];
    assert_eq!(trav.over_all(&data, |x| x), data);
}

#[test]
fn test_traversal_law_composition() {
    // Law: over_all(over_all(s, f), g) = over_all(s, g ∘ f)
    let trav = vec_traversal();
    let data = vec![1, 2, 3];

    let f = |x: i32| x * 2;
    let g = |x: i32| x + 10;

    let step_by_step = trav.over_all(&trav.over_all(&data, f), g);
    let composed = trav.over_all(&data, |x| g(f(x)));

    assert_eq!(step_by_step, composed);
}

#[test]
fn test_traversal_empty() {
    let trav = vec_traversal();
    let data: Vec<i32> = vec![];
    assert_eq!(trav.get_all(&data), Vec::<i32>::new());
    assert_eq!(trav.over_all(&data, |x| x * 2), Vec::<i32>::new());
}

#[test]
fn test_traversal_as_fold() {
    let trav = vec_traversal();
    let fold = trav.as_fold();
    assert_eq!(fold.fold_of(&vec![1, 2, 3]), vec![1, 2, 3]);
}

#[test]
fn test_traversal_on_struct() {
    #[derive(Clone, Debug, PartialEq)]
    struct Team {
        members: Vec<String>,
        name: String,
    }

    let members_traversal = Traversal::new(
        |team: &Team| team.members.clone(),
        |team: &Team, members: Vec<String>| Team {
            members,
            name: team.name.clone(),
        },
    );

    let team = Team {
        members: vec!["alice".to_string(), "bob".to_string()],
        name: "Dev".to_string(),
    };

    assert_eq!(
        members_traversal.get_all(&team),
        vec!["alice".to_string(), "bob".to_string()]
    );

    let updated = members_traversal.over_all(&team, |s| s.to_uppercase());
    assert_eq!(
        updated.members,
        vec!["ALICE".to_string(), "BOB".to_string()]
    );
    assert_eq!(updated.name, "Dev"); // other fields unchanged
}

#[test]
fn test_lens_to_traversal() {
    let lens = name_lens();
    let trav = lens.to_traversal();
    let user = test_user();

    assert_eq!(trav.get_all(&user), vec!["Alice".to_string()]);
    let updated = trav.over_all(&user, |s| s.to_uppercase());
    assert_eq!(updated.name, "ALICE");
}

#[test]
fn test_lens_to_fold() {
    let lens = age_lens();
    let fold = lens.to_fold();
    let user = test_user();

    assert_eq!(fold.fold_of(&user), vec![30]);
    assert_eq!(fold.length(&user), 1);
}

#[test]
fn test_prism_to_traversal() {
    let prism = circle_prism();
    let trav = prism.to_traversal();

    let circle = Shape::Circle(5.0);
    assert_eq!(trav.get_all(&circle), vec![5.0]);
    assert_eq!(trav.over_all(&circle, |r| r * 2.0), Shape::Circle(10.0));

    let rect = Shape::Rectangle(2.0, 3.0);
    assert!(trav.get_all(&rect).is_empty());
    assert_eq!(trav.over_all(&rect, |r| r * 2.0), rect);
}

#[test]
fn test_prism_to_fold() {
    let prism = circle_prism();
    let fold = prism.to_fold();

    assert_eq!(fold.fold_of(&Shape::Circle(5.0)), vec![5.0]);
    assert!(fold.fold_of(&Shape::Rectangle(2.0, 3.0)).is_empty());
}

#[test]
fn test_iso_to_traversal() {
    let iso = celsius_fahrenheit_iso();
    let trav = iso.to_traversal();
    let vals = trav.get_all(&100.0);
    assert_eq!(vals.len(), 1);
    assert!((vals[0] - 212.0).abs() < 1e-10);
}

#[test]
fn test_iso_to_fold() {
    let iso = celsius_fahrenheit_iso();
    let fold = iso.to_fold();
    let vals = fold.fold_of(&100.0);
    assert!((vals[0] - 212.0).abs() < 1e-10);
}

#[test]
fn test_optional_to_fold() {
    let opt = Optional::new(
        |user: &User| user.address.clone(),
        |user: &User, address: Address| User {
            name: user.name.clone(),
            age: user.age,
            address: Some(address),
        },
    );

    let user_with = User {
        name: "A".into(),
        age: 1,
        address: Some(Address {
            city: "NYC".into(),
            zip: "10001".into(),
        }),
    };
    let user_without = User {
        name: "B".into(),
        age: 2,
        address: None,
    };

    let fold = opt.to_fold();
    assert_eq!(fold.length(&user_with), 1);
    assert_eq!(fold.length(&user_without), 0);
}

#[test]
fn test_lens_then() {
    let user = User {
        name: "Alice".to_string(),
        age: 30,
        address: Some(Address {
            city: "NYC".to_string(),
            zip: "10001".to_string(),
        }),
    };

    let via_then = Lens::new(
        |user: &User| user.address.clone().unwrap(),
        |user: &User, address: Address| User {
            name: user.name.clone(),
            age: user.age,
            address: Some(address),
        },
    )
    .then(Lens::new(
        |addr: &Address| addr.city.clone(),
        |addr: &Address, city: String| Address {
            city,
            zip: addr.zip.clone(),
        },
    ));

    assert_eq!(via_then.get(&user), "NYC");
    let updated = via_then.set(&user, "Boston".to_string());
    assert_eq!(updated.address.unwrap().city, "Boston");
}

#[test]
fn test_fold_then() {
    // Fold that gets all members from a team
    #[derive(Clone, Debug)]
    struct Team {
        members: Vec<String>,
    }

    let members_fold = Fold::new(|team: &Team| team.members.clone());
    let char_fold =
        Fold::new(|s: &String| s.chars().map(|c| c.to_string()).collect::<Vec<_>>());

    let composed = members_fold.then(char_fold);
    let team = Team {
        members: vec!["ab".to_string(), "cd".to_string()],
    };
    assert_eq!(
        composed.fold_of(&team),
        vec![
            "a".to_string(),
            "b".to_string(),
            "c".to_string(),
            "d".to_string()
        ]
    );
}

#[test]
fn test_traversal_then() {
    // Outer: traverse each inner vec
    let outer = Traversal::new(
        |v: &Vec<Vec<i32>>| v.clone(),
        |_v: &Vec<Vec<i32>>, inners: Vec<Vec<i32>>| inners,
    );

    // Inner: traverse each element in an inner vec
    let inner = vec_traversal();

    let composed = outer.then(inner);
    let data = vec![vec![1, 2], vec![3, 4]];

    assert_eq!(composed.get_all(&data), vec![1, 2, 3, 4]);
    let doubled = composed.over_all(&data, |x| x * 2);
    assert_eq!(doubled, vec![vec![2, 4], vec![6, 8]]);
}

#[test]
fn test_fold_any_all_find() {
    let even_fold =
        Fold::new(|v: &Vec<i32>| v.iter().filter(|x| *x % 2 == 0).cloned().collect());

    let data = vec![2, 4, 6, 8];
    assert!(even_fold.any(&data, |x| *x > 5));
    assert!(even_fold.all(&data, |x| *x % 2 == 0));
    assert_eq!(even_fold.find(&data, |x| *x > 5), Some(6));
}

#[test]
fn test_traversal_to_fold() {
    let trav = vec_traversal();
    let fold = trav.to_fold();
    assert_eq!(fold.fold_of(&vec![1, 2, 3]), vec![1, 2, 3]);
    // trav is still usable since to_fold borrows
    assert_eq!(trav.get_all(&vec![4, 5]), vec![4, 5]);
}
