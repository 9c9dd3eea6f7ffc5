use brainfuck::data::Movie;

#[test]
fn movie_holds_its_fields() {
    let movie = Movie {
        id: 7,
        title: String::from("The General"),
        genres: vec![String::from("Comedy"), String::from("Action")],
    };
    assert_eq!(movie.id, 7);
    assert_eq!(movie.title, "The General");
    assert_eq!(movie.genres.len(), 2);
    assert_eq!(movie.genres[0], "Comedy");
    assert_eq!(movie.genres[1], "Action");
}
