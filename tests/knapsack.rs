use graph_cycles::knapsack::{create_dynamic_matrix, pack_a_ruck, Knapsack, Object};

fn four_objects() -> Vec<Object> {
    let mut objects: Vec<Object> = Vec::new();
    objects.push(Object::from(1, "", 2, 4));
    objects.push(Object::from(2, "", 1, 3));
    objects.push(Object::from(3, "", 4, 6));
    objects.push(Object::from(4, "", 4, 8));
    objects
}

#[test]
fn test_create_dynamic_matrix() {
    let knapsack = Knapsack { capacity: 8 };
    let objects = four_objects();

    let dynamic_matrix: Vec<Vec<usize>> = vec![
        vec![0, 0, 0, 0, 0, 0, 0, 0, 0],
        vec![0, 0, 4, 4, 4, 4, 4, 4, 4],
        vec![0, 3, 4, 7, 7, 7, 7, 7, 7],
        vec![0, 3, 4, 7, 7, 9, 10, 13, 13],
        vec![0, 3, 4, 7, 8, 11, 12, 15, 15],
    ];

    let generated_matrix = create_dynamic_matrix(knapsack, &objects);

    assert_eq!(dynamic_matrix, generated_matrix.array);
}

#[test]
fn test_pack_a_ruck() {
    let knapsack = Knapsack { capacity: 8 };
    let objects = four_objects();

    let packed = pack_a_ruck(knapsack, &objects);

    let weight: usize = packed.iter().map(|obj| obj.weight).sum();
    let value: usize = packed.iter().map(|obj| obj.value).sum();
    let ids: Vec<usize> = packed.iter().map(|obj| obj.id).collect();

    assert_eq!(weight, 7);
    assert_eq!(value, 15);
    assert_eq!(ids, vec![4, 2, 1]);
}

#[test]
fn dynamically_test_no_solution() {
    let knapsack = Knapsack { capacity: 8 };
    let mut objects: Vec<Object> = Vec::new();
    objects.push(Object::from(1, "", 9, 4));
    objects.push(Object::from(2, "", 11, 3));
    objects.push(Object::from(3, "", 42, 6));
    objects.push(Object::from(4, "", 24, 8));

    let packed = pack_a_ruck(knapsack, &objects);

    assert_eq!(packed, Vec::new());
}

#[test]
fn object_keeps_its_fields_and_table_has_its_shape() {
    let object = Object::from(7, "lamp", 3, 5);
    assert_eq!((object.id, object.name.as_str(), object.weight, object.value), (7, "lamp", 3, 5));
    let table = create_dynamic_matrix(Knapsack { capacity: 2 }, &vec![object]);
    assert_eq!((table.rows, table.columns), (2, 3));
    assert_eq!(table.array, vec![vec![0, 0, 0], vec![0, 0, 0]]);
}

#[test]
fn packing_exactly_at_capacity() {
    let mut objects: Vec<Object> = Vec::new();
    objects.push(Object::from(1, "a", 5, 10));
    objects.push(Object::from(2, "b", 4, 40));
    objects.push(Object::from(3, "c", 6, 30));
    objects.push(Object::from(4, "d", 3, 50));
    let packed = pack_a_ruck(Knapsack { capacity: 10 }, &objects);
    let ids: Vec<usize> = packed.iter().map(|obj| obj.id).collect();
    assert_eq!(ids, vec![4, 2]);
    assert_eq!(packed[0].name, "d");
}
